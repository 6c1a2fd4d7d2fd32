//! Bytes shown as text: what is not UTF-8 becomes the replacement character.

use vstd::prelude::*;
#[allow(unused_imports)]
use vstd::utf8::*;

verus! {

/// The character shown for bytes that are not UTF-8.
pub const REPLACEMENT: char = '\u{FFFD}';

/// `char::from_u32` gives the character with the number `i` where there is one: a
/// number up to 0x10FFFF that is no surrogate.
pub assume_specification[ char::from_u32 ](i: u32) -> (c: Option<char>)
    ensures
        c == (if is_scalar(i) {
            Some(i as char)
        } else {
            None
        }),
;

/// `String::push` puts the character at the end of the string.
pub assume_specification[ String::push ](s: &mut String, c: char)
    ensures
        final(s)@ == old(s)@.push(c),
;

/// The second byte of a character can follow its first byte: it continues a
/// character of three or four bytes that no shorter form has, that is no surrogate
/// and that is not beyond the last character.
pub open spec fn second_byte_fits(first: u8, second: u8) -> bool {
    &&& 0xe0 <= first <= 0xf4
    &&& is_continuation_byte(second)
    &&& first == 0xe0 ==> 0xa0 <= second
    &&& first == 0xed ==> second <= 0x9f
    &&& first == 0xf0 ==> 0x90 <= second
    &&& first == 0xf4 ==> second <= 0x8f
}

/// How many bytes at the start, where no character starts, one replacement
/// character stands for: as many as a character could begin with, and at least one.
pub open spec fn malformed_len(bytes: Seq<u8>) -> int {
    if bytes.len() >= 2 && second_byte_fits(bytes[0], bytes[1]) {
        if bytes[0] >= 0xf0 && bytes.len() >= 3 && is_continuation_byte(bytes[2]) {
            3
        } else {
            2
        }
    } else {
        1
    }
}

/// How many bytes at the start the first shown character stands for.
pub open spec fn first_len(bytes: Seq<u8>) -> int {
    if valid_first_scalar(bytes) {
        length_of_first_scalar(bytes)
    } else {
        malformed_len(bytes)
    }
}

/// The first shown character.
pub open spec fn first_shown(bytes: Seq<u8>) -> char {
    if valid_first_scalar(bytes) {
        decode_first_scalar(bytes) as char
    } else {
        REPLACEMENT
    }
}

/// The bytes as text.
pub open spec fn lossy(bytes: Seq<u8>) -> Seq<char>
    decreases bytes.len(),
{
    if bytes.len() == 0 {
        Seq::empty()
    } else {
        seq![first_shown(bytes)] + lossy(bytes.skip(first_len(bytes)))
    }
}

/// UTF-8 is shown as it is.
pub proof fn law_lossy_valid(bytes: Seq<u8>)
    requires
        valid_utf8(bytes),
    ensures
        lossy(bytes) == decode_utf8(bytes),
    decreases bytes.len(),
{
    if bytes.len() > 0 {
        assert(pop_first_scalar(bytes) =~= bytes.skip(first_len(bytes)));
        law_lossy_valid(pop_first_scalar(bytes));
    }
}

/// What stands before an ASCII byte is shown the same whatever comes from there on.
pub proof fn lemma_lossy_before_ascii(before: Seq<u8>, after: Seq<u8>)
    requires
        after.len() > 0,
        after[0] < 0x80,
    ensures
        lossy(before + after) == lossy(before) + lossy(after),
    decreases before.len(),
{
    let both = before + after;
    if before.len() == 0 {
        assert(both =~= after);
        assert(lossy(both) =~= lossy(before) + lossy(after));
    } else {
        assert(first_len(both) == first_len(before));
        assert(first_shown(both) == first_shown(before));
        let n = first_len(before);
        assert(both.skip(n) =~= before.skip(n) + after);
        lemma_lossy_before_ascii(before.skip(n), after);
        assert(lossy(both) =~= lossy(before) + lossy(after));
    }
}

/// An ASCII byte is shown as one character, whatever comes behind it.
pub proof fn lemma_lossy_ascii_first(bytes: Seq<u8>)
    requires
        bytes.len() > 0,
        bytes[0] < 0x80,
    ensures
        lossy(bytes) == seq![bytes[0] as char] + lossy(bytes.skip(1)),
{
    let b = bytes[0];
    assert((b & 0x7f) == b) by (bit_vector)
        requires
            b < 0x80,
    ;
}

/// UTF-8 is shown as it is whatever follows it, and has no say in how that is shown.
pub proof fn law_lossy_text_first(text: Seq<u8>, rest: Seq<u8>)
    requires
        valid_utf8(text),
    ensures
        lossy(text + rest) == decode_utf8(text) + lossy(rest),
    decreases text.len(),
{
    let both = text + rest;
    if text.len() == 0 {
        assert(both =~= rest);
        assert(decode_utf8(text) + lossy(rest) =~= lossy(rest));
    } else {
        let n = length_of_first_scalar(text);
        assert(valid_first_scalar(both));
        assert(first_shown(both) == decode_first_scalar(text) as char);
        assert(first_len(both) == n);
        assert(both.skip(n) =~= pop_first_scalar(text) + rest);
        law_lossy_text_first(pop_first_scalar(text), rest);
        assert(lossy(both) =~= decode_utf8(text) + lossy(rest));
    }
}

/// No character has a form that could be shorter, is a surrogate, or lies beyond the
/// last character.
proof fn lemma_no_character(b0: u8, b1: u8, b2: u8, b3: u8)
    ensures
        b0 == 0xc0 || b0 == 0xc1 ==> codepoint_width_2(b0, b1) < 0x80,
        b0 == 0xe0 && 0x80 <= b1 < 0xa0 ==> codepoint_width_3(b0, b1, b2) < 0x800,
        b0 == 0xed && 0xa0 <= b1 <= 0xbf ==> 0xd800 <= codepoint_width_3(b0, b1, b2) <= 0xdfff,
        b0 == 0xf0 && 0x80 <= b1 < 0x90 ==> codepoint_width_4(b0, b1, b2, b3) < 0x10000,
        b0 == 0xf4 && 0x90 <= b1 <= 0xbf ==> codepoint_width_4(b0, b1, b2, b3) > 0x10ffff,
        0xf5 <= b0 <= 0xf7 ==> codepoint_width_4(b0, b1, b2, b3) > 0x10ffff,
{
    assert(b0 == 0xc0 || b0 == 0xc1 ==> ((((b0 & 0x1f) as u32) << 6) | ((b1 & 0x3f) as u32))
        < 0x80) by (bit_vector);
    assert(b0 == 0xe0 && 0x80 <= b1 && b1 < 0xa0 ==> ((((b0 & 0x0f) as u32) << 12) | (((b1
        & 0x3f) as u32) << 6) | ((b2 & 0x3f) as u32)) < 0x800) by (bit_vector);
    assert(b0 == 0xed && 0xa0 <= b1 && b1 <= 0xbf ==> 0xd800 <= ((((b0 & 0x0f) as u32) << 12) | (((
    b1 & 0x3f) as u32) << 6) | ((b2 & 0x3f) as u32)) && ((((b0 & 0x0f) as u32) << 12) | (((b1
        & 0x3f) as u32) << 6) | ((b2 & 0x3f) as u32)) <= 0xdfff) by (bit_vector);
    assert(b0 == 0xf0 && 0x80 <= b1 && b1 < 0x90 ==> ((((b0 & 0x07) as u32) << 18) | (((b1
        & 0x3f) as u32) << 12) | (((b2 & 0x3f) as u32) << 6) | ((b3 & 0x3f) as u32)) < 0x10000)
        by (bit_vector);
    assert(b0 == 0xf4 && 0x90 <= b1 && b1 <= 0xbf ==> ((((b0 & 0x07) as u32) << 18) | (((b1
        & 0x3f) as u32) << 12) | (((b2 & 0x3f) as u32) << 6) | ((b3 & 0x3f) as u32)) > 0x10ffff)
        by (bit_vector);
    assert(0xf5 <= b0 && b0 <= 0xf7 ==> ((((b0 & 0x07) as u32) << 18) | (((b1 & 0x3f) as u32)
        << 12) | (((b2 & 0x3f) as u32) << 6) | ((b3 & 0x3f) as u32)) > 0x10ffff) by (bit_vector);
}

/// What is not UTF-8 is shown as one replacement character for each byte that no
/// character can go on from, and as one for as many bytes as a character starts with
/// that breaks off: the first byte, and the second and third where they can follow.
pub proof fn law_lossy_malformed(bytes: Seq<u8>)
    requires
        bytes.len() > 0,
    ensures
        ({
            let first = bytes[0];
            let second = bytes[1];
            let follows = |k: int| bytes.len() > k && 0x80 <= bytes[k] <= 0xbf;
            let fits = follows(1) && (first == 0xe0 ==> second >= 0xa0) && (first == 0xed ==> second
                < 0xa0) && (first == 0xf0 ==> second >= 0x90) && (first == 0xf4 ==> second < 0x90);
            &&& 0x80 <= first <= 0xc1 || first >= 0xf5 ==> lossy(bytes) == seq!['\u{FFFD}'] + lossy(
                bytes.skip(1),
            )
            &&& 0xc2 <= first <= 0xdf && !follows(1) ==> lossy(bytes) == seq!['\u{FFFD}'] + lossy(
                bytes.skip(1),
            )
            &&& 0xe0 <= first <= 0xf4 && !fits ==> lossy(bytes) == seq!['\u{FFFD}'] + lossy(
                bytes.skip(1),
            )
            &&& 0xe0 <= first <= 0xf4 && fits && !follows(2) ==> lossy(bytes)
                == seq!['\u{FFFD}'] + lossy(bytes.skip(2))
            &&& 0xf0 <= first <= 0xf4 && fits && follows(2) && !follows(3) ==> lossy(bytes)
                == seq!['\u{FFFD}'] + lossy(bytes.skip(3))
        }),
{
    lemma_no_character(bytes[0], bytes[1], bytes[2], bytes[3]);
}

/// The character at the start of the bytes from `i` on and its length, where a
/// character is there.
fn first_char(bytes: &Vec<u8>, i: usize) -> (found: Option<(char, usize)>)
    requires
        i < bytes@.len(),
    ensures
        found is Some <==> valid_first_scalar(bytes@.skip(i as int)),
        found matches Some(f) ==> f.0 == first_shown(bytes@.skip(i as int)) && f.1 == first_len(
            bytes@.skip(i as int),
        ),
{
    let ghost rest = bytes@.skip(i as int);
    let left: usize = bytes.len() - i;
    let b0: u8 = bytes[i];
    assert(b0 == rest[0]);
    let mut code: u32 = 0;
    let mut len: usize = 0;
    if b0 <= 0x7f {
        code = (b0 & 0x7f) as u32;
        len = 1;
        assert((b0 & 0x7f) < 0x80) by (bit_vector);
    } else if 0xc0 <= b0 && b0 <= 0xdf && left >= 2 {
        let b1: u8 = bytes[i + 1];
        assert(b1 == rest[1]);
        if 0x80 <= b1 && b1 <= 0xbf {
            code = (((b0 & 0x1f) as u32) << 6) | ((b1 & 0x3f) as u32);
            assert(((((b0 & 0x1f) as u32) << 6) | ((b1 & 0x3f) as u32)) < 0x800) by (bit_vector);
            if code >= 0x80 {
                len = 2;
            }
        }
    } else if 0xe0 <= b0 && b0 <= 0xef && left >= 3 {
        let b1: u8 = bytes[i + 1];
        let b2: u8 = bytes[i + 2];
        assert(b1 == rest[1] && b2 == rest[2]);
        if 0x80 <= b1 && b1 <= 0xbf && 0x80 <= b2 && b2 <= 0xbf {
            code =
            (((b0 & 0x0f) as u32) << 12) | (((b1 & 0x3f) as u32) << 6) | ((b2 & 0x3f) as u32);
            assert(((((b0 & 0x0f) as u32) << 12) | (((b1 & 0x3f) as u32) << 6) | ((b2
                & 0x3f) as u32)) < 0x10000) by (bit_vector);
            if code >= 0x800 && !(0xd800 <= code && code <= 0xdfff) {
                len = 3;
            }
        }
    } else if 0xf0 <= b0 && b0 <= 0xf7 && left >= 4 {
        let b1: u8 = bytes[i + 1];
        let b2: u8 = bytes[i + 2];
        let b3: u8 = bytes[i + 3];
        assert(b1 == rest[1] && b2 == rest[2] && b3 == rest[3]);
        if 0x80 <= b1 && b1 <= 0xbf && 0x80 <= b2 && b2 <= 0xbf && 0x80 <= b3 && b3 <= 0xbf {
            code =
            (((b0 & 0x07) as u32) << 18) | (((b1 & 0x3f) as u32) << 12) | (((b2 & 0x3f) as u32)
                << 6) | ((b3 & 0x3f) as u32);
            if 0x10000 <= code && code <= 0x10ffff {
                len = 4;
            }
        }
    }
    if len == 0 {
        return None;
    }
    match char::from_u32(code) {
        Some(c) => Some((c, len)),
        None => None,
    }
}

/// How many bytes from `i` on one replacement character stands for.
fn malformed_at(bytes: &Vec<u8>, i: usize) -> (len: usize)
    requires
        i < bytes@.len(),
    ensures
        len == malformed_len(bytes@.skip(i as int)),
        i + len <= bytes@.len(),
{
    let left: usize = bytes.len() - i;
    if left < 2 {
        return 1;
    }
    let b0: u8 = bytes[i];
    let b1: u8 = bytes[i + 1];
    let fits: bool = 0xe0 <= b0 && b0 <= 0xf4 && 0x80 <= b1 && b1 <= 0xbf && (b0 != 0xe0 || 0xa0
        <= b1) && (b0 != 0xed || b1 <= 0x9f) && (b0 != 0xf0 || 0x90 <= b1) && (b0 != 0xf4 || b1
        <= 0x8f);
    if !fits {
        1
    } else if b0 >= 0xf0 && left >= 3 && 0x80 <= bytes[i + 2] && bytes[i + 2] <= 0xbf {
        3
    } else {
        2
    }
}

/// The bytes as text.
pub fn to_text(bytes: &Vec<u8>) -> (text: String)
    ensures
        text@ == lossy(bytes@),
{
    let mut text: String = String::new();
    let mut i: usize = 0;
    assert(bytes@.skip(0) =~= bytes@);
    assert(text@ + lossy(bytes@) =~= lossy(bytes@));
    while i < bytes.len()
        invariant
            i <= bytes@.len(),
            lossy(bytes@) == text@ + lossy(bytes@.skip(i as int)),
        decreases bytes@.len() - i,
    {
        let ghost rest = bytes@.skip(i as int);
        let ghost so_far = text@;
        let len: usize = match first_char(bytes, i) {
            Some(found) => {
                text.push(found.0);
                found.1
            },
            None => {
                text.push(REPLACEMENT);
                malformed_at(bytes, i)
            },
        };
        assert(rest.skip(len as int) =~= bytes@.skip(i + len));
        assert(so_far + (seq![first_shown(rest)] + lossy(rest.skip(len as int))) =~= text@ + lossy(
            rest.skip(len as int),
        ));
        i += len;
    }
    assert(text@ + lossy(bytes@.skip(i as int)) =~= text@);
    text
}

} // verus!

//! Streaming UTF-8 decoding: one Unicode scalar value at a time from a
//! byte sequence, verified against the UTF-8 specification in
//! `vstd::utf8`. The decoder inspects the lead byte for the encoding's
//! width, checks the continuation bytes, and rejects overlong encodings
//! and surrogate values.

use vstd::prelude::*;

use vstd::utf8::codepoint_width_2;
use vstd::utf8::codepoint_width_4;
use vstd::utf8::decode_first_scalar;
use vstd::utf8::decode_utf8;
use vstd::utf8::encode_utf8;
use vstd::utf8::is_continuation_byte;
use vstd::utf8::is_scalar;
use vstd::utf8::length_of_first_scalar;
use vstd::utf8::partial_valid_utf8;
use vstd::utf8::pop_first_scalar;
use vstd::utf8::valid_first_scalar;
use vstd::utf8::valid_utf8;

verus! {

/// A decode failure: the bytes before `offset` are a valid UTF-8
/// encoding, and the bytes from `offset` on do not begin a well-formed
/// encoding of a scalar value.
#[derive(Debug, Clone, Copy, PartialEq, Eq, Structural)]
pub struct DecodeError {
    pub offset: usize,
}

/// Relies on `char::from_u32`: yields the character with the given
/// scalar value exactly when the value is a Unicode scalar (that is, not
/// a surrogate and at most 0x10FFFF), and the character casts back to
/// the same value.
#[verifier::external_body]
fn char_from_u32(v: u32) -> (r: Option<char>)
    ensures
        r matches Option::Some(c) ==> c as u32 == v,
        r is Some <==> is_scalar(v),
{
    char::from_u32(v)
}

/// Decodes the scalar value whose UTF-8 encoding begins at `pos`: the
/// character and the width of its encoding, or nothing when the bytes at
/// `pos` do not begin a well-formed encoding of a scalar value.
pub fn decode_char_at(bytes: &Vec<u8>, pos: usize) -> (r: Option<(char, usize)>)
    requires
        pos < bytes@.len(),
    ensures
        ({
            let suffix = bytes@.subrange(pos as int, bytes@.len() as int);
            match r {
                Option::Some((c, width)) => {
                    &&& valid_first_scalar(suffix)
                    &&& width as int == length_of_first_scalar(suffix)
                    &&& c as u32 == decode_first_scalar(suffix)
                    &&& 1 <= width <= 4
                    &&& pos + width <= bytes@.len()
                },
                Option::None => !valid_first_scalar(suffix),
            }
        }),
{
    let ghost suffix = bytes@.subrange(pos as int, bytes@.len() as int);
    let n = bytes.len();
    let b0 = bytes[pos];
    proof {
        assert(suffix[0] == b0);
        assert(suffix.len() == n - pos);
    }
    if b0 < 0x80 {
        // One byte: the scalar is the lead byte itself.
        proof {
            assert(b0 & 0x7f == b0) by (bit_vector)
                requires
                    b0 < 0x80,
            ;
        }
        match char_from_u32(b0 as u32) {
            Option::Some(c) => Option::Some((c, 1)),
            Option::None => {
                proof {
                    assert(false);
                }
                Option::None
            },
        }
    } else if b0 < 0xC2 {
        // A continuation byte in lead position, or the overlong leads
        // 0xC0 and 0xC1: never a well-formed encoding.
        proof {
            if suffix.len() >= 2 && is_continuation_byte(suffix[1]) && 0xC0 <= b0 {
                let b1 = suffix[1];
                assert(codepoint_width_2(b0, b1) < 0x80) by (bit_vector)
                    requires
                        0xC0 <= b0 <= 0xC1,
                ;
            }
        }
        Option::None
    } else if b0 < 0xE0 {
        // Two bytes.
        if pos + 1 >= n {
            return Option::None;
        }
        let b1 = bytes[pos + 1];
        proof {
            assert(suffix[1] == b1);
        }
        if !(0x80 <= b1 && b1 <= 0xBF) {
            return Option::None;
        }
        let cp: u32 = (((b0 & 0x1F) as u32) << 6) | ((b1 & 0x3F) as u32);
        proof {
            assert(0x80 <= cp <= 0x7FF) by (bit_vector)
                requires
                    cp == (((b0 & 0x1F) as u32) << 6) | ((b1 & 0x3F) as u32),
                    0xC2 <= b0 <= 0xDF,
                    0x80 <= b1 <= 0xBF,
            ;
        }
        match char_from_u32(cp) {
            Option::Some(c) => Option::Some((c, 2)),
            Option::None => {
                proof {
                    assert(false);
                }
                Option::None
            },
        }
    } else if b0 < 0xF0 {
        // Three bytes; overlong encodings and the surrogate range are
        // rejected by the value's range.
        if n - pos < 3 {
            return Option::None;
        }
        let b1 = bytes[pos + 1];
        let b2 = bytes[pos + 2];
        proof {
            assert(suffix[1] == b1);
            assert(suffix[2] == b2);
        }
        if !(0x80 <= b1 && b1 <= 0xBF) {
            return Option::None;
        }
        if !(0x80 <= b2 && b2 <= 0xBF) {
            return Option::None;
        }
        let cp: u32 = (((b0 & 0x0F) as u32) << 12) | (((b1 & 0x3F) as u32) << 6) | ((b2
            & 0x3F) as u32);
        proof {
            assert(cp <= 0xFFFF) by (bit_vector)
                requires
                    cp == (((b0 & 0x0F) as u32) << 12) | (((b1 & 0x3F) as u32) << 6) | ((b2
                        & 0x3F) as u32),
            ;
        }
        if cp < 0x800 {
            return Option::None;
        }
        if 0xD800 <= cp && cp <= 0xDFFF {
            return Option::None;
        }
        match char_from_u32(cp) {
            Option::Some(c) => Option::Some((c, 3)),
            Option::None => {
                proof {
                    assert(false);
                }
                Option::None
            },
        }
    } else if b0 < 0xF5 {
        // Four bytes; values past 0x10FFFF are rejected by range.
        if n - pos < 4 {
            return Option::None;
        }
        let b1 = bytes[pos + 1];
        let b2 = bytes[pos + 2];
        let b3 = bytes[pos + 3];
        proof {
            assert(suffix[1] == b1);
            assert(suffix[2] == b2);
            assert(suffix[3] == b3);
        }
        if !(0x80 <= b1 && b1 <= 0xBF) {
            return Option::None;
        }
        if !(0x80 <= b2 && b2 <= 0xBF) {
            return Option::None;
        }
        if !(0x80 <= b3 && b3 <= 0xBF) {
            return Option::None;
        }
        let cp: u32 = (((b0 & 0x07) as u32) << 18) | (((b1 & 0x3F) as u32) << 12) | (((b2
            & 0x3F) as u32) << 6) | ((b3 & 0x3F) as u32);
        if cp < 0x10000 {
            return Option::None;
        }
        if cp > 0x10FFFF {
            return Option::None;
        }
        match char_from_u32(cp) {
            Option::Some(c) => Option::Some((c, 4)),
            Option::None => {
                proof {
                    assert(false);
                }
                Option::None
            },
        }
    } else {
        // Leads 0xF5 through 0xFF never begin a well-formed encoding:
        // either no width fits the bit pattern, or the value is past
        // 0x10FFFF.
        proof {
            if suffix.len() >= 4 && is_continuation_byte(suffix[1]) && is_continuation_byte(
                suffix[2],
            ) && is_continuation_byte(suffix[3]) && b0 <= 0xF7 {
                let b1 = suffix[1];
                let b2 = suffix[2];
                let b3 = suffix[3];
                assert(codepoint_width_4(b0, b1, b2, b3) > 0x10FFFF) by (bit_vector)
                    requires
                        0xF5 <= b0 <= 0xF7,
                ;
            }
        }
        Option::None
    }
}

/// Decodes a whole byte sequence into its characters. Succeeds exactly
/// when the bytes are a valid UTF-8 encoding, and then yields exactly the
/// characters the bytes encode; on failure, the error's offset marks the
/// end of the longest decodable prefix.
pub fn decode_chars(bytes: &Vec<u8>) -> (r: Result<Vec<char>, DecodeError>)
    ensures
        match r {
            Result::Ok(cs) => valid_utf8(bytes@) && cs@ == decode_utf8(bytes@),
            Result::Err(e) => {
                &&& !valid_utf8(bytes@)
                &&& e.offset <= bytes@.len()
                &&& valid_utf8(bytes@.subrange(0, e.offset as int))
                &&& !valid_first_scalar(
                    bytes@.subrange(e.offset as int, bytes@.len() as int),
                )
            },
        },
{
    let mut cs: Vec<char> = Vec::new();
    let mut i: usize = 0;
    proof {
        assert(bytes@.subrange(0, 0) =~= Seq::<u8>::empty());
    }
    while i < bytes.len()
        invariant
            i <= bytes@.len(),
            partial_valid_utf8(bytes@, i as int),
            cs@ == decode_utf8(bytes@.subrange(0, i as int)),
        decreases bytes@.len() - i,
    {
        let ghost suffix = bytes@.subrange(i as int, bytes@.len() as int);
        match decode_char_at(bytes, i) {
            Option::Some((c, width)) => {
                cs.push(c);
                proof {
                    lemma_decode_extend(bytes@, i as int, c, width as int);
                }
                i = i + width;
            },
            Option::None => {
                proof {
                    assert(!valid_utf8(suffix));
                    vstd::utf8::partial_valid_partial_invalid_utf8(bytes@, i as int);
                }
                return Result::Err(DecodeError { offset: i });
            },
        }
    }
    proof {
        assert(bytes@.subrange(0, bytes@.len() as int) =~= bytes@);
    }
    Result::Ok(cs)
}

/// Decoding one more scalar extends the decoded prefix by exactly that
/// scalar's character.
proof fn lemma_decode_extend(bytes: Seq<u8>, i: int, c: char, width: int)
    requires
        0 <= i < bytes.len(),
        partial_valid_utf8(bytes, i),
        valid_first_scalar(bytes.subrange(i, bytes.len() as int)),
        width == length_of_first_scalar(bytes.subrange(i, bytes.len() as int)),
        c as u32 == decode_first_scalar(bytes.subrange(i, bytes.len() as int)),
        i + width <= bytes.len(),
        1 <= width <= 4,
    ensures
        partial_valid_utf8(bytes, i + width),
        decode_utf8(bytes.subrange(0, i + width)) == decode_utf8(bytes.subrange(0, i)) + seq![c],
{
    let suffix = bytes.subrange(i, bytes.len() as int);
    vstd::utf8::partial_valid_utf8_extend(bytes, i);
    let prefix2 = bytes.subrange(0, i + width);
    assert(valid_utf8(prefix2));
    assert(prefix2[i] == suffix[0]);
    vstd::utf8::is_char_boundary_iff_is_leading_byte(prefix2, i);
    assert(vstd::utf8::is_char_boundary(prefix2, i));
    vstd::utf8::decode_utf8_split(prefix2, i);
    assert(prefix2.subrange(0, i) =~= bytes.subrange(0, i));
    let mid = prefix2.subrange(i, prefix2.len() as int);
    assert(mid =~= bytes.subrange(i, i + width));
    vstd::utf8::valid_utf8_split(prefix2, i);
    assert(valid_utf8(mid));
    // The scalar at the front of `mid` is the scalar at the front of the
    // whole suffix: the widths and data bytes coincide.
    assert(mid.len() == width);
    assert(forall|j: int| 0 <= j < width ==> mid[j] == suffix[j]);
    assert(length_of_first_scalar(mid) == width);
    assert(decode_first_scalar(mid) == decode_first_scalar(suffix));
    assert(pop_first_scalar(mid) =~= Seq::<u8>::empty());
    assert(valid_utf8(Seq::<u8>::empty()));
    assert(decode_utf8(Seq::<u8>::empty()) =~= Seq::<char>::empty());
    assert(decode_utf8(mid) =~= seq![decode_first_scalar(mid) as char]);
    vstd::utf8::char_u32_cast(c, decode_first_scalar(suffix));
    assert(decode_utf8(prefix2) =~= decode_utf8(bytes.subrange(0, i)) + seq![c]);
}

/// Round trip: for every valid UTF-8 byte sequence, decoding and then
/// concatenating the encodings of the yielded characters reproduces the
/// original bytes exactly.
pub proof fn lemma_decode_reproduces_input(bytes: Seq<u8>)
    requires
        valid_utf8(bytes),
    ensures
        encode_utf8(decode_utf8(bytes)) == bytes,
{
    vstd::utf8::decode_utf8_encode_utf8(bytes);
}

} // verus!

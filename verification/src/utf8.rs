//! From bytes to text: the conversion of a byte vector into a `String`, and
//! the UTF-8 form of a code point of the Basic Multilingual Plane.

use vstd::prelude::*;
use vstd::utf8::*;

verus! {

/// Calls `String::from_utf8`, which is not verified here. The contract is
/// what the standard library documents: the conversion succeeds exactly on
/// well-formed UTF-8, and the string then holds the characters that the bytes
/// encode.
#[verifier::external_body]
pub(crate) fn string_from_utf8(bytes: Vec<u8>) -> (r: Option<String>)
    ensures
        r is Some <==> valid_utf8(bytes@),
        r matches Some(text) ==> text@ == decode_utf8(bytes@),
{
    String::from_utf8(bytes).ok()
}

/// Bytes below 128 are well-formed UTF-8.
pub proof fn lemma_ascii_is_utf8(bytes: Seq<u8>)
    requires
        forall|i: int| 0 <= i < bytes.len() ==> bytes[i] < 0x80,
    ensures
        valid_utf8(bytes),
{
    assert(bytes.subrange(0, 0) =~= Seq::<u8>::empty());
    assert(partial_valid_utf8(bytes, 0));
    assert forall|i: int| 0 <= 0 <= i < bytes.len() <= bytes.len() implies #[trigger] is_leading_byte_width_1(bytes[i]) by {}
    partial_valid_utf8_extend_ascii_block(bytes, 0, bytes.len() as int);
    assert(bytes.subrange(0, bytes.len() as int) =~= bytes);
}

/// The UTF-8 pattern of one, two or three bytes for a code point up to
/// `0xFFFF`. For a surrogate (`0xD800` to `0xDFFF`) the three bytes are no
/// well-formed UTF-8.
pub open spec fn code_point_bytes(code_point: u32) -> Seq<u8>
    recommends
        code_point <= 0xFFFF,
{
    if has_width_1_encoding(code_point) {
        seq![leading_byte_width_1(code_point)]
    } else if has_width_2_encoding(code_point) {
        seq![leading_byte_width_2(code_point), last_continuation_byte(code_point)]
    } else {
        seq![
            leading_byte_width_3(code_point),
            second_last_continuation_byte(code_point),
            last_continuation_byte(code_point),
        ]
    }
}

/// Appends the UTF-8 pattern of a 16-bit code point to `out`.
pub fn push_code_point(out: &mut Vec<u8>, code_point: u16)
    ensures
        final(out)@ == old(out)@ + code_point_bytes(code_point as u32),
{
    let ghost before = out@;
    let value = code_point as u32;
    if value <= 0x7F {
        assert(value & 0x7F < 0x100) by (bit_vector);
        out.push((value & 0x7F) as u8);
    } else if value <= 0x7FF {
        assert((value >> 6) & 0x1F < 0x100) by (bit_vector);
        assert(value & 0x3F < 0x100) by (bit_vector);
        out.push(0xC0u8 | ((value >> 6) & 0x1F) as u8);
        out.push(0x80u8 | (value & 0x3F) as u8);
    } else {
        assert((value >> 12) & 0x0F < 0x100) by (bit_vector);
        assert((value >> 6) & 0x3F < 0x100) by (bit_vector);
        assert(value & 0x3F < 0x100) by (bit_vector);
        out.push(0xE0u8 | ((value >> 12) & 0x0F) as u8);
        out.push(0x80u8 | ((value >> 6) & 0x3F) as u8);
        out.push(0x80u8 | (value & 0x3F) as u8);
    }
    assert(out@ =~= before + code_point_bytes(value));
}

pub open spec fn is_surrogate(code_point: u32) -> bool {
    0xD800 <= code_point <= 0xDFFF
}

/// A code point up to `0xFFFF` that is no surrogate is a character, and its
/// byte pattern is that character's UTF-8 encoding.
pub proof fn lemma_code_point_is_utf8(code_point: u32)
    requires
        code_point <= 0xFFFF,
        !is_surrogate(code_point),
    ensures
        (code_point as char) as u32 == code_point,
        code_point_bytes(code_point) == encode_utf8(seq![code_point as char]),
        valid_utf8(code_point_bytes(code_point)),
        decode_utf8(code_point_bytes(code_point)) == seq![code_point as char],
{
    let c = code_point as char;
    let text = seq![c];
    assert(text.drop_first() =~= Seq::<char>::empty());
    assert(encode_utf8(text) =~= encode_scalar(code_point)) by {
        reveal_with_fuel(encode_utf8, 2);
    }
    assert(code_point_bytes(code_point) =~= encode_scalar(code_point));
    encode_utf8_valid_utf8(text);
    encode_utf8_decode_utf8(text);
}

/// The byte pattern of a surrogate starts with a byte that continues no
/// character and does not decode to a character.
proof fn lemma_surrogate_pattern(code_point: u32)
    by (bit_vector)
    requires
        0xD800 <= code_point <= 0xDFFF,
    ensures
        !(0x80 <= leading_byte_width_3(code_point) <= 0xbf),
        0xe0 <= leading_byte_width_3(code_point) <= 0xef,
        0x80 <= second_last_continuation_byte(code_point) <= 0xbf,
        0x80 <= last_continuation_byte(code_point) <= 0xbf,
        codepoint_width_3(
            leading_byte_width_3(code_point),
            second_last_continuation_byte(code_point),
            last_continuation_byte(code_point),
        ) == code_point,
{
}

/// Bytes that hold the pattern of a surrogate are, whatever stands before
/// and behind it, no well-formed UTF-8.
pub proof fn lemma_surrogate_is_no_utf8(before: Seq<u8>, code_point: u32, behind: Seq<u8>)
    requires
        is_surrogate(code_point),
    ensures
        !valid_utf8(before + code_point_bytes(code_point) + behind),
{
    let pattern = code_point_bytes(code_point);
    let whole = before + pattern + behind;
    let at = before.len() as int;
    lemma_surrogate_pattern(code_point);
    assert(pattern.len() == 3);
    assert(whole[at] == pattern[0]);
    if valid_utf8(whole) {
        is_char_boundary_iff_not_is_continuation_byte(whole, at);
        valid_utf8_split(whole, at);
        let tail = whole.subrange(at, whole.len() as int);
        assert(tail =~= pattern + behind);
        assert(tail[0] == pattern[0]);
        assert(tail[1] == pattern[1]);
        assert(tail[2] == pattern[2]);
        assert(valid_first_scalar(tail));
        assert(decode_first_codepoint(tail) == code_point);
    }
}

} // verus!

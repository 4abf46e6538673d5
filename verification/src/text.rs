//! String literals: what a literal between two quotes decodes to, as a
//! specification, and the scanner that decodes it.

use vstd::prelude::*;
use vstd::utf8::*;
use crate::ascii::{
    BACKSLASH, BACKSPACE, CARRIAGE_RETURN, DIGIT_0, DIGIT_9, FORM_FEED, LINE_FEED, LOWER_A,
    LOWER_B, LOWER_F, LOWER_N, LOWER_R, LOWER_T, LOWER_U, QUOTE, SPACE, TAB, UPPER_A, UPPER_F,
};
use crate::utf8::{
    code_point_bytes, is_surrogate, lemma_surrogate_is_no_utf8, push_code_point, string_from_utf8,
};

verus! {

/// The value of a hexadecimal digit, in either case.
pub open spec fn hex_digit_value(b: u8) -> Option<u32> {
    if DIGIT_0 <= b <= DIGIT_9 {
        Some((b - DIGIT_0) as u32)
    } else if UPPER_A <= b <= UPPER_F {
        Some((b - UPPER_A + 10) as u32)
    } else if LOWER_A <= b <= LOWER_F {
        Some((b - LOWER_A + 10) as u32)
    } else {
        None
    }
}

/// The 16-bit value that the four hexadecimal digits from `i` spell, the
/// first digit weighing most.
pub open spec fn hex4_value(s: Seq<u8>, i: int) -> Option<u32> {
    if 0 <= i && i + 4 <= s.len() && hex_digit_value(s[i]) is Some && hex_digit_value(
        s[i + 1],
    ) is Some && hex_digit_value(s[i + 2]) is Some && hex_digit_value(s[i + 3]) is Some {
        Some(
            (hex_digit_value(s[i])->0 * 0x1000 + hex_digit_value(s[i + 1])->0 * 0x100
                + hex_digit_value(s[i + 2])->0 * 0x10 + hex_digit_value(s[i + 3])->0) as u32,
        )
    } else {
        None
    }
}

/// The bytes that the escape whose letter stands at `i`, behind the
/// backslash, decodes to.
pub open spec fn escape_bytes(s: Seq<u8>, i: int) -> Option<Seq<u8>> {
    if !(0 <= i < s.len()) {
        None
    } else if s[i] == QUOTE {
        Some(seq![QUOTE])
    } else if s[i] == BACKSLASH {
        Some(seq![BACKSLASH])
    } else if s[i] == LOWER_B {
        Some(seq![BACKSPACE])
    } else if s[i] == LOWER_F {
        Some(seq![FORM_FEED])
    } else if s[i] == LOWER_N {
        Some(seq![LINE_FEED])
    } else if s[i] == LOWER_R {
        Some(seq![CARRIAGE_RETURN])
    } else if s[i] == LOWER_T {
        Some(seq![TAB])
    } else if s[i] == LOWER_U {
        match hex4_value(s, i + 1) {
            Some(code_point) => Some(code_point_bytes(code_point)),
            None => None,
        }
    } else {
        None
    }
}

/// How many bytes an escape takes behind its backslash.
pub open spec fn escape_width(letter: u8) -> int {
    if letter == LOWER_U {
        5
    } else {
        1
    }
}

/// Puts `prefix` before the bytes of a scan's result.
pub open spec fn prepend(prefix: Seq<u8>, rest: Option<(Seq<u8>, int)>) -> Option<(Seq<u8>, int)> {
    match rest {
        Some((bytes, end)) => Some((prefix + bytes, end)),
        None => None,
    }
}

/// The decoded bytes of a literal's body from `i` up to its closing quote, and
/// the index behind that quote. No closing quote, a raw control byte or a bad
/// escape leaves `None`.
pub open spec fn string_body(s: Seq<u8>, i: int) -> Option<(Seq<u8>, int)>
    decreases s.len() - i,
{
    if !(0 <= i < s.len()) {
        None
    } else if s[i] == QUOTE {
        Some((Seq::empty(), i + 1))
    } else if s[i] < SPACE {
        None
    } else if s[i] == BACKSLASH {
        match escape_bytes(s, i + 1) {
            Some(bytes) => prepend(bytes, string_body(s, i + 1 + escape_width(s[i + 1]))),
            None => None,
        }
    } else {
        prepend(seq![s[i]], string_body(s, i + 1))
    }
}

/// The text of the string literal at the start of `s` and the literal's
/// length, if one stands there and what it decodes to is well-formed UTF-8.
pub open spec fn string_literal(s: Seq<u8>) -> Option<(Seq<char>, int)> {
    if s.len() > 0 && s[0] == QUOTE {
        match string_body(s, 1) {
            Some((bytes, end)) => if valid_utf8(bytes) {
                Some((decode_utf8(bytes), end))
            } else {
                None
            },
            None => None,
        }
    } else {
        None
    }
}

pub proof fn lemma_prepend_twice(a: Seq<u8>, b: Seq<u8>, rest: Option<(Seq<u8>, int)>)
    ensures
        prepend(a, prepend(b, rest)) == prepend(a + b, rest),
{
    if let Some((bytes, end)) = rest {
        assert(a + (b + bytes) =~= (a + b) + bytes);
    }
}

/// A literal's body ends behind its start, inside the sequence.
pub proof fn lemma_string_body_bounds(s: Seq<u8>, i: int)
    requires
        string_body(s, i) is Some,
    ensures
        i < string_body(s, i).unwrap().1 <= s.len(),
    decreases s.len() - i,
{
    if s[i] == QUOTE {
    } else if s[i] == BACKSLASH {
        lemma_string_body_bounds(s, i + 1 + escape_width(s[i + 1]));
    } else {
        lemma_string_body_bounds(s, i + 1);
    }
}

/// A literal's body is the same body in every sequence that holds its bytes.
pub proof fn lemma_string_body_agree(s: Seq<u8>, t: Seq<u8>, i: int)
    requires
        string_body(s, i) is Some,
        string_body(s, i).unwrap().1 <= t.len(),
        forall|k: int| 0 <= k < string_body(s, i).unwrap().1 ==> s[k] == t[k],
    ensures
        string_body(t, i) == string_body(s, i),
    decreases s.len() - i,
{
    lemma_string_body_bounds(s, i);
    if s[i] == QUOTE {
    } else if s[i] == BACKSLASH {
        let next = i + 1 + escape_width(s[i + 1]);
        lemma_string_body_bounds(s, next);
        lemma_string_body_agree(s, t, next);
    } else {
        lemma_string_body_bounds(s, i + 1);
        lemma_string_body_agree(s, t, i + 1);
    }
}

/// A string literal is the same literal in every sequence that holds its
/// bytes.
pub proof fn lemma_string_literal_agree(s: Seq<u8>, t: Seq<u8>)
    requires
        string_literal(s) is Some,
        string_literal(s).unwrap().1 <= t.len(),
        forall|k: int| 0 <= k < string_literal(s).unwrap().1 ==> s[k] == t[k],
    ensures
        string_literal(t) == string_literal(s),
{
    lemma_string_body_bounds(s, 1);
    lemma_string_body_agree(s, t, 1);
}

/// No byte of a string literal is a control byte.
pub proof fn lemma_string_body_has_no_control_byte(s: Seq<u8>, i: int)
    requires
        string_body(s, i) is Some,
    ensures
        forall|k: int| i <= k < string_body(s, i).unwrap().1 ==> #[trigger] s[k] >= SPACE,
    decreases s.len() - i,
{
    if s[i] == QUOTE {
    } else if s[i] == BACKSLASH {
        lemma_string_body_has_no_control_byte(s, i + 1 + escape_width(s[i + 1]));
    } else {
        lemma_string_body_has_no_control_byte(s, i + 1);
    }
}

/// A control byte between the quotes of a string literal fails the literal.
pub proof fn lemma_control_byte_fails(s: Seq<u8>, k: int)
    requires
        0 < k,
        s[k] < SPACE,
        string_literal(s) matches Some((_, end)) ==> k < end,
    ensures
        string_literal(s) is None,
{
    if string_literal(s) is Some {
        lemma_string_body_has_no_control_byte(s, 1);
    }
}

/// What each escape letter decodes to: the seven letters to one byte each,
/// `u` to the byte pattern of the code point that four hexadecimal digits
/// spell, and any other byte to nothing.
pub proof fn lemma_escapes(s: Seq<u8>, i: int)
    requires
        0 <= i < s.len(),
    ensures
        s[i] == QUOTE ==> escape_bytes(s, i) == Some(seq![QUOTE]),
        s[i] == BACKSLASH ==> escape_bytes(s, i) == Some(seq![BACKSLASH]),
        s[i] == LOWER_B ==> escape_bytes(s, i) == Some(seq![BACKSPACE]),
        s[i] == LOWER_F ==> escape_bytes(s, i) == Some(seq![FORM_FEED]),
        s[i] == LOWER_N ==> escape_bytes(s, i) == Some(seq![LINE_FEED]),
        s[i] == LOWER_R ==> escape_bytes(s, i) == Some(seq![CARRIAGE_RETURN]),
        s[i] == LOWER_T ==> escape_bytes(s, i) == Some(seq![TAB]),
        s[i] == LOWER_U ==> escape_bytes(s, i) == match hex4_value(s, i + 1) {
            Some(code_point) => Some(code_point_bytes(code_point)),
            None => None,
        },
        s[i] != QUOTE && s[i] != BACKSLASH && s[i] != LOWER_B && s[i] != LOWER_F && s[i]
            != LOWER_N && s[i] != LOWER_R && s[i] != LOWER_T && s[i] != LOWER_U ==> escape_bytes(
            s,
            i,
        ) is None,
        i > 0 && s[i - 1] == BACKSLASH ==> string_body(s, i - 1) == match escape_bytes(s, i) {
            Some(bytes) => prepend(bytes, string_body(s, i + escape_width(s[i]))),
            None => None,
        },
{
}

/// The decoded bytes of a literal's body from `i` up to `j`, where the
/// scanner that starts at `i` comes to stand at `j`.
pub open spec fn body_until(s: Seq<u8>, i: int, j: int) -> Option<Seq<u8>>
    decreases s.len() - i,
{
    if i == j {
        Some(Seq::empty())
    } else if !(0 <= i < s.len()) || j < i {
        None
    } else if s[i] == QUOTE || s[i] < SPACE {
        None
    } else if s[i] == BACKSLASH {
        match escape_bytes(s, i + 1) {
            Some(bytes) => match body_until(s, i + 1 + escape_width(s[i + 1]), j) {
                Some(rest) => Some(bytes + rest),
                None => None,
            },
            None => None,
        }
    } else {
        match body_until(s, i + 1, j) {
            Some(rest) => Some(seq![s[i]] + rest),
            None => None,
        }
    }
}

/// A body is what is decoded up to a position where the scanner stands, and
/// then what is decoded from there.
pub proof fn lemma_string_body_split(s: Seq<u8>, i: int, j: int)
    requires
        body_until(s, i, j) is Some,
    ensures
        string_body(s, i) == prepend(body_until(s, i, j).unwrap(), string_body(s, j)),
    decreases s.len() - i,
{
    if i == j {
        if let Some((bytes, end)) = string_body(s, j) {
            assert(Seq::<u8>::empty() + bytes =~= bytes);
        }
    } else if s[i] == BACKSLASH {
        let next = i + 1 + escape_width(s[i + 1]);
        lemma_string_body_split(s, next, j);
        lemma_prepend_twice(
            escape_bytes(s, i + 1).unwrap(),
            body_until(s, next, j).unwrap(),
            string_body(s, j),
        );
    } else {
        lemma_string_body_split(s, i + 1, j);
        lemma_prepend_twice(seq![s[i]], body_until(s, i + 1, j).unwrap(), string_body(s, j));
    }
}

/// An escape that spells a surrogate fails the string literal in which it
/// stands, wherever it stands: the literal would not decode to text.
pub proof fn lemma_surrogate_escape_fails(s: Seq<u8>, j: int)
    requires
        body_until(s, 1, j) is Some,
        0 < j,
        j + 1 < s.len(),
        s[j] == BACKSLASH,
        s[j + 1] == LOWER_U,
        hex4_value(s, j + 2) matches Some(code_point) && is_surrogate(code_point),
    ensures
        string_literal(s) is None,
{
    lemma_string_body_split(s, 1, j);
    let before = body_until(s, 1, j).unwrap();
    let code_point = hex4_value(s, j + 2).unwrap();
    if let Some((behind, end)) = string_body(s, j + 6) {
        lemma_surrogate_is_no_utf8(before, code_point, behind);
        assert(before + (code_point_bytes(code_point) + behind) =~= before + code_point_bytes(
            code_point,
        ) + behind);
    }
}

/// Reads one hexadecimal digit.
fn hex_digit(b: u8) -> (r: Option<u32>)
    ensures
        r == hex_digit_value(b),
{
    if DIGIT_0 <= b && b <= DIGIT_9 {
        Some((b - DIGIT_0) as u32)
    } else if UPPER_A <= b && b <= UPPER_F {
        Some((b - UPPER_A + 10) as u32)
    } else if LOWER_A <= b && b <= LOWER_F {
        Some((b - LOWER_A + 10) as u32)
    } else {
        None
    }
}

/// Reads the four hexadecimal digits from `i`.
fn peek_hex4(bytes: &[u8], i: usize) -> (r: Option<u16>)
    ensures
        match r {
            Some(code_point) => hex4_value(bytes@, i as int) == Some(code_point as u32),
            None => hex4_value(bytes@, i as int) is None,
        },
{
    let len = bytes.len();
    if len < 4 || i > len - 4 {
        return None;
    }
    match (
        hex_digit(bytes[i]),
        hex_digit(bytes[i + 1]),
        hex_digit(bytes[i + 2]),
        hex_digit(bytes[i + 3]),
    ) {
        (Some(first), Some(second), Some(third), Some(fourth)) => Some(
            (first * 0x1000 + second * 0x100 + third * 0x10 + fourth) as u16,
        ),
        _ => None,
    }
}

/// Finds a string literal at the start of `remaining_bytes` and returns its
/// length and the text it decodes to, otherwise `0` and the empty string.
pub fn peek_string(remaining_bytes: &[u8]) -> (r: (usize, String))
    ensures
        match string_literal(remaining_bytes@) {
            Some((text, end)) => 1 < end <= remaining_bytes@.len() && r.0 == end && r.1@ == text,
            None => r.0 == 0 && r.1@ == Seq::<char>::empty(),
        },
{
    let ghost s = remaining_bytes@;
    let len = remaining_bytes.len();
    if len == 0 || remaining_bytes[0] != QUOTE {
        return (0, String::new());
    }
    let mut result: Vec<u8> = Vec::new();
    let mut i: usize = 1;
    loop
        invariant_except_break
            string_body(s, 1) == prepend(result@, string_body(s, i as int)),
        invariant
            s == remaining_bytes@,
            len == s.len(),
            1 <= i <= len,
        ensures
            1 < i <= len,
            string_body(s, 1) == Some((result@, i as int)),
        decreases len - i,
    {
        if i >= len {
            return (0, String::new());
        }
        let byte = remaining_bytes[i];
        if byte == QUOTE {
            proof {
                assert(result@ + Seq::<u8>::empty() =~= result@);
            }
            i += 1;
            break;
        } else if byte < SPACE {
            return (0, String::new());
        } else if byte == BACKSLASH {
            if i + 1 >= len {
                return (0, String::new());
            }
            let letter = remaining_bytes[i + 1];
            let ghost before = result@;
            let ghost escaped = escape_bytes(s, i + 1);
            if letter == QUOTE {
                result.push(QUOTE);
            } else if letter == BACKSLASH {
                result.push(BACKSLASH);
            } else if letter == LOWER_B {
                result.push(BACKSPACE);
            } else if letter == LOWER_F {
                result.push(FORM_FEED);
            } else if letter == LOWER_N {
                result.push(LINE_FEED);
            } else if letter == LOWER_R {
                result.push(CARRIAGE_RETURN);
            } else if letter == LOWER_T {
                result.push(TAB);
            } else if letter == LOWER_U {
                match peek_hex4(remaining_bytes, i + 2) {
                    Some(code_point) => {
                        push_code_point(&mut result, code_point);
                    },
                    None => {
                        return (0, String::new());
                    },
                }
            } else {
                return (0, String::new());
            }
            proof {
                assert(escaped is Some);
                assert(result@ =~= before + escaped->0);
                lemma_prepend_twice(
                    before,
                    escaped->0,
                    string_body(s, i + 1 + escape_width(letter)),
                );
            }
            if letter == LOWER_U {
                i += 6;
            } else {
                i += 2;
            }
        } else {
            proof {
                lemma_prepend_twice(result@, seq![byte], string_body(s, i + 1));
                assert(result@.push(byte) =~= result@ + seq![byte]);
            }
            result.push(byte);
            i += 1;
        }
    }
    match string_from_utf8(result) {
        Some(text) => (i, text),
        None => (0, String::new()),
    }
}

} // verus!

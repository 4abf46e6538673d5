//! Number literals: the grammar
//! `-? (0 | [1-9][0-9]*) (.[0-9]+)? ([eE][+-]?[0-9]+)?`
//! as a specification, and the state machine that scans for it.

use vstd::prelude::*;
use vstd::slice::*;
use vstd::utf8::*;
use crate::ascii::{DIGIT_0, DIGIT_1, DIGIT_9, DOT, LOWER_E, MINUS, PLUS, UPPER_E};
use crate::utf8::{lemma_ascii_is_utf8, string_from_utf8};

verus! {

pub open spec fn is_digit(b: u8) -> bool {
    DIGIT_0 <= b <= DIGIT_9
}

pub open spec fn is_exponent_mark(b: u8) -> bool {
    b == LOWER_E || b == UPPER_E
}

pub open spec fn is_sign(b: u8) -> bool {
    b == PLUS || b == MINUS
}

/// Where the run of digits that starts at `i` ends: `i` itself when no digit
/// stands there.
pub open spec fn digits_end(s: Seq<u8>, i: int) -> int
    decreases s.len() - i,
{
    if 0 <= i < s.len() && is_digit(s[i]) {
        digits_end(s, i + 1)
    } else {
        i
    }
}

/// A run of digits ends at or after its start, and inside the sequence.
pub proof fn lemma_digits_end_bounds(s: Seq<u8>, i: int)
    requires
        0 <= i <= s.len(),
    ensures
        i <= digits_end(s, i) <= s.len(),
    decreases s.len() - i,
{
    if i < s.len() && is_digit(s[i]) {
        lemma_digits_end_bounds(s, i + 1);
    }
}

/// The end of a run of at least one digit from `i`.
pub open spec fn required_digits_end(s: Seq<u8>, i: int) -> Option<int> {
    if digits_end(s, i) > i {
        Some(digits_end(s, i))
    } else {
        None
    }
}

/// The end of `0 | [1-9][0-9]*` from `i`.
pub open spec fn integer_end(s: Seq<u8>, i: int) -> Option<int> {
    if 0 <= i < s.len() && s[i] == DIGIT_0 {
        Some(i + 1)
    } else {
        required_digits_end(s, i)
    }
}

/// The end of `(.[0-9]+)?` from `i`: a dot commits to a fraction.
pub open spec fn fraction_end(s: Seq<u8>, i: int) -> Option<int> {
    if 0 <= i < s.len() && s[i] == DOT {
        required_digits_end(s, i + 1)
    } else {
        Some(i)
    }
}

/// The end of `([eE][+-]?[0-9]+)?` from `i`: an exponent mark commits to an
/// exponent.
pub open spec fn exponent_end(s: Seq<u8>, i: int) -> Option<int> {
    if 0 <= i < s.len() && is_exponent_mark(s[i]) {
        if i + 1 < s.len() && is_sign(s[i + 1]) {
            required_digits_end(s, i + 2)
        } else {
            required_digits_end(s, i + 1)
        }
    } else {
        Some(i)
    }
}

/// The end of the optional fraction and exponent from `i`.
pub open spec fn fraction_exponent_end(s: Seq<u8>, i: int) -> Option<int> {
    match fraction_end(s, i) {
        Some(j) => exponent_end(s, j),
        None => None,
    }
}

/// The end of the unsigned number from `i`.
pub open spec fn unsigned_end(s: Seq<u8>, i: int) -> Option<int> {
    match integer_end(s, i) {
        Some(j) => fraction_exponent_end(s, j),
        None => None,
    }
}

/// Where the digits of the number at the start of `s` begin: behind the
/// minus sign, if there is one.
pub open spec fn number_start(s: Seq<u8>) -> int {
    if s.len() > 0 && s[0] == MINUS {
        1
    } else {
        0
    }
}

/// The length of the number literal at the start of `s`, if one stands there.
/// The match is greedy and never backs up: `1.` followed by no digit is no
/// number, though `1` is.
pub open spec fn number_end(s: Seq<u8>) -> Option<int> {
    unsigned_end(s, number_start(s))
}

/// A number literal is not empty and ends inside the sequence.
pub proof fn lemma_number_end_bounds(s: Seq<u8>)
    requires
        number_end(s) is Some,
    ensures
        0 < number_end(s).unwrap() <= s.len(),
{
    let start: int = if s.len() > 0 && s[0] == MINUS {
        1
    } else {
        0
    };
    lemma_digits_end_bounds(s, start);
    let i = integer_end(s, start).unwrap();
    if i < s.len() {
        lemma_digits_end_bounds(s, i + 1);
    }
    let j = fraction_end(s, i).unwrap();
    if j < s.len() {
        lemma_digits_end_bounds(s, j + 1);
        if j + 1 < s.len() {
            lemma_digits_end_bounds(s, j + 2);
        }
    }
}

/// The bytes that can stand in a number literal.
pub open spec fn is_number_byte(b: u8) -> bool {
    is_digit(b) || is_sign(b) || is_exponent_mark(b) || b == DOT
}

/// The bytes that can stand behind the digits of a number literal and belong
/// to it.
pub open spec fn continues_number(b: u8) -> bool {
    is_digit(b) || is_exponent_mark(b) || b == DOT
}

/// A run of digits holds digits only.
pub proof fn lemma_digits_end_digits(s: Seq<u8>, i: int)
    requires
        0 <= i <= s.len(),
    ensures
        forall|k: int| i <= k < digits_end(s, i) ==> is_digit(#[trigger] s[k]),
    decreases s.len() - i,
{
    if i < s.len() && is_digit(s[i]) {
        lemma_digits_end_digits(s, i + 1);
    }
}

/// Whether `t` holds the first `n` bytes of `s` and goes on with the byte
/// that follows them in `s`, or with one that continues no number, or ends.
pub open spec fn same_number_context(s: Seq<u8>, t: Seq<u8>, n: int) -> bool {
    &&& 0 <= n <= s.len()
    &&& n <= t.len()
    &&& forall|k: int| 0 <= k < n ==> s[k] == t[k]
    &&& t.len() > n ==> !continues_number(t[n]) || (n < s.len() && s[n] == t[n])
}

/// A run of digits that ends at or before `n` is the same run in every
/// sequence with the same context.
pub proof fn lemma_digits_end_agree(s: Seq<u8>, t: Seq<u8>, n: int, i: int)
    requires
        0 <= i <= n,
        same_number_context(s, t, n),
        digits_end(s, i) <= n,
    ensures
        digits_end(t, i) == digits_end(s, i),
    decreases n - i,
{
    lemma_digits_end_bounds(s, i);
    if i < n {
        assert(s[i] == t[i]);
        if is_digit(s[i]) {
            lemma_digits_end_agree(s, t, n, i + 1);
        }
    } else if n < s.len() {
        lemma_digits_end_bounds(s, n + 1);
    }
}

/// A number literal holds bytes of a number only.
pub proof fn lemma_number_end_bytes(s: Seq<u8>)
    requires
        number_end(s) is Some,
    ensures
        forall|k: int| 0 <= k < number_end(s).unwrap() ==> is_number_byte(#[trigger] s[k]),
{
    let n = number_end(s).unwrap();
    lemma_number_end_bounds(s);
    let start: int = if s[0] == MINUS {
        1
    } else {
        0
    };
    lemma_digits_end_bounds(s, start);
    lemma_digits_end_digits(s, start);
    let a = integer_end(s, start).unwrap();
    if a < s.len() {
        lemma_digits_end_bounds(s, a + 1);
        lemma_digits_end_digits(s, a + 1);
    }
    let b = fraction_end(s, a).unwrap();
    if b < s.len() {
        lemma_digits_end_bounds(s, b + 1);
        lemma_digits_end_digits(s, b + 1);
        if b + 1 < s.len() {
            lemma_digits_end_bounds(s, b + 2);
            lemma_digits_end_digits(s, b + 2);
        }
    }
    assert forall|k: int| 0 <= k < n implies is_number_byte(#[trigger] s[k]) by {
        if k < start {
        } else if k < a {
        } else if k < b {
        } else {
        }
    }
}

/// A number literal is the same literal in every sequence with the same
/// context.
pub proof fn lemma_number_end_agree(s: Seq<u8>, t: Seq<u8>)
    requires
        number_end(s) is Some,
        same_number_context(s, t, number_end(s).unwrap()),
    ensures
        number_end(t) == number_end(s),
{
    let n = number_end(s).unwrap();
    lemma_number_end_bounds(s);
    let start: int = if s[0] == MINUS {
        1
    } else {
        0
    };
    lemma_digits_end_bounds(s, start);
    let a = integer_end(s, start).unwrap();
    if a < s.len() {
        lemma_digits_end_bounds(s, a + 1);
    }
    let b = fraction_end(s, a).unwrap();
    if b < s.len() {
        lemma_digits_end_bounds(s, b + 1);
        if b + 1 < s.len() {
            lemma_digits_end_bounds(s, b + 2);
        }
    }
    assert(start < a <= b <= n);
    if s[start] != DIGIT_0 {
        lemma_digits_end_agree(s, t, n, start);
    }
    assert(integer_end(t, start) == Some(a));
    if a < n && s[a] == DOT {
        lemma_digits_end_agree(s, t, n, a + 1);
    }
    assert(fraction_end(t, a) == Some(b));
    if b < n {
        assert(is_exponent_mark(s[b]));
        if is_sign(s[b + 1]) {
            lemma_digits_end_agree(s, t, n, b + 2);
        } else {
            lemma_digits_end_agree(s, t, n, b + 1);
        }
    }
    assert(exponent_end(t, b) == Some(n));
}

/// Behind a minus sign a digit must follow.
pub proof fn lemma_bare_minus_fails(s: Seq<u8>)
    requires
        s.len() > 0,
        s[0] == MINUS,
        s.len() > 1 ==> !is_digit(s[1]),
    ensures
        number_end(s) is None,
{
}

/// Behind the dot that follows the integer part a digit must follow.
pub proof fn lemma_empty_fraction_fails(s: Seq<u8>)
    requires
        integer_end(s, number_start(s)) matches Some(dot) && dot < s.len() && s[dot] == DOT && (dot
            + 1 < s.len() ==> !is_digit(s[dot + 1])),
    ensures
        number_end(s) is None,
{
}

/// Behind the exponent mark that follows the integer part and the fraction,
/// and behind its sign if it has one, a digit must follow.
pub proof fn lemma_empty_exponent_fails(s: Seq<u8>)
    requires
        integer_end(s, number_start(s)) matches Some(dot) && fraction_end(s, dot) matches Some(
            mark,
        ) && mark < s.len() && is_exponent_mark(s[mark]) && (mark + 1 < s.len() && !is_sign(
            s[mark + 1],
        ) ==> !is_digit(s[mark + 1])) && (mark + 2 < s.len() && is_sign(s[mark + 1])
            ==> !is_digit(s[mark + 2])),
    ensures
        number_end(s) is None,
{
}

/// Behind a leading zero the number ends unless a fraction or an exponent
/// follows: a digit there belongs to the number no more.
pub proof fn lemma_zero_ends_integer(s: Seq<u8>)
    requires
        number_start(s) < s.len(),
        s[number_start(s)] == DIGIT_0,
        number_start(s) + 1 < s.len() ==> s[number_start(s) + 1] != DOT && !is_exponent_mark(
            s[number_start(s) + 1],
        ),
    ensures
        number_end(s) == Some(number_start(s) + 1),
{
}

/// The text of a number literal is a number text.
pub proof fn lemma_number_literal_text(s: Seq<u8>)
    requires
        number_end(s) is Some,
    ensures
        valid_utf8(s.subrange(0, number_end(s).unwrap())),
        encode_utf8(decode_utf8(s.subrange(0, number_end(s).unwrap()))) == s.subrange(
            0,
            number_end(s).unwrap(),
        ),
        is_number_text(decode_utf8(s.subrange(0, number_end(s).unwrap()))),
{
    let n = number_end(s).unwrap();
    let literal = s.subrange(0, n);
    lemma_number_end_bounds(s);
    lemma_number_end_bytes(s);
    lemma_ascii_is_utf8(literal);
    decode_utf8_encode_utf8(literal);
    lemma_number_end_agree(s, literal);
}

/// Whether `text` is, from its first to its last character, one number
/// literal.
pub open spec fn is_number_text(text: Seq<char>) -> bool {
    number_end(encode_utf8(text)) == Some(encode_utf8(text).len() as int)
}

/// The scanner's states.
#[derive(Clone, Copy, Debug, PartialEq, Eq)]
pub enum NumberState {
    Start,
    Negative,
    IntegerZero,
    IntegerNonZero,
    IntegerDigits,
    Dot,
    FractionDigits,
    E,
    Sign,
    ExponentDigits,
}

impl NumberState {
    /// What `number_end` comes to when the scanner stands in this state
    /// before byte `i`.
    pub open spec fn outlook(self, s: Seq<u8>, i: int) -> Option<int> {
        match self {
            NumberState::Start => number_end(s),
            NumberState::Negative => unsigned_end(s, i),
            NumberState::IntegerZero => fraction_exponent_end(s, i),
            NumberState::IntegerNonZero => fraction_exponent_end(s, digits_end(s, i)),
            NumberState::IntegerDigits => fraction_exponent_end(s, digits_end(s, i)),
            NumberState::Dot => match required_digits_end(s, i) {
                Some(j) => exponent_end(s, j),
                None => None,
            },
            NumberState::FractionDigits => exponent_end(s, digits_end(s, i)),
            NumberState::E => if 0 <= i < s.len() && is_sign(s[i]) {
                required_digits_end(s, i + 1)
            } else {
                required_digits_end(s, i)
            },
            NumberState::Sign => required_digits_end(s, i),
            NumberState::ExponentDigits => Some(digits_end(s, i)),
        }
    }
}

/// Finds a number literal at the start of `remaining_bytes` and returns its
/// length and its text, otherwise `0` and the empty string.
pub fn peek_number(remaining_bytes: &[u8]) -> (r: (usize, String))
    ensures
        match number_end(remaining_bytes@) {
            Some(n) => 0 < n <= remaining_bytes@.len() && r.0 == n && r.1@ == decode_utf8(
                remaining_bytes@.subrange(0, n),
            ),
            None => r.0 == 0 && r.1@ == Seq::<char>::empty(),
        },
{
    let ghost s = remaining_bytes@;
    let mut state = NumberState::Start;
    let mut i: usize = 0;
    let mut open = true;
    while open && i < remaining_bytes.len()
        invariant
            s == remaining_bytes@,
            0 <= i <= s.len(),
            state is Start <==> i == 0,
            number_end(s) == if open {
                state.outlook(s, i as int)
            } else {
                Some(i as int)
            },
            !open ==> i > 0,
            forall|k: int| 0 <= k < i ==> s[k] < 0x80,
        decreases s.len() - i, open as int,
    {
        let byte = remaining_bytes[i];
        proof {
            lemma_digits_end_bounds(s, i + 1);
        }
        let next = match state {
            NumberState::Start => {
                if byte == MINUS {
                    Some(NumberState::Negative)
                } else if byte == DIGIT_0 {
                    Some(NumberState::IntegerZero)
                } else if DIGIT_1 <= byte && byte <= DIGIT_9 {
                    Some(NumberState::IntegerNonZero)
                } else {
                    return (0, String::new());
                }
            },
            NumberState::Negative => {
                if byte == DIGIT_0 {
                    Some(NumberState::IntegerZero)
                } else if DIGIT_1 <= byte && byte <= DIGIT_9 {
                    Some(NumberState::IntegerNonZero)
                } else {
                    return (0, String::new());
                }
            },
            NumberState::IntegerZero => {
                if byte == DOT {
                    Some(NumberState::Dot)
                } else if byte == LOWER_E || byte == UPPER_E {
                    Some(NumberState::E)
                } else {
                    None
                }
            },
            NumberState::IntegerNonZero | NumberState::IntegerDigits => {
                if DIGIT_0 <= byte && byte <= DIGIT_9 {
                    Some(NumberState::IntegerDigits)
                } else if byte == DOT {
                    Some(NumberState::Dot)
                } else if byte == LOWER_E || byte == UPPER_E {
                    Some(NumberState::E)
                } else {
                    None
                }
            },
            NumberState::Dot => {
                if DIGIT_0 <= byte && byte <= DIGIT_9 {
                    Some(NumberState::FractionDigits)
                } else {
                    return (0, String::new());
                }
            },
            NumberState::FractionDigits => {
                if DIGIT_0 <= byte && byte <= DIGIT_9 {
                    Some(NumberState::FractionDigits)
                } else if byte == LOWER_E || byte == UPPER_E {
                    Some(NumberState::E)
                } else {
                    None
                }
            },
            NumberState::E => {
                if byte == PLUS || byte == MINUS {
                    Some(NumberState::Sign)
                } else if DIGIT_0 <= byte && byte <= DIGIT_9 {
                    Some(NumberState::ExponentDigits)
                } else {
                    return (0, String::new());
                }
            },
            NumberState::Sign => {
                if DIGIT_0 <= byte && byte <= DIGIT_9 {
                    Some(NumberState::ExponentDigits)
                } else {
                    return (0, String::new());
                }
            },
            NumberState::ExponentDigits => {
                if DIGIT_0 <= byte && byte <= DIGIT_9 {
                    Some(NumberState::ExponentDigits)
                } else {
                    None
                }
            },
        };
        match next {
            Some(after) => {
                state = after;
                i += 1;
            },
            None => {
                open = false;
            },
        }
    }
    if open {
        match state {
            NumberState::IntegerZero
            | NumberState::IntegerNonZero
            | NumberState::IntegerDigits
            | NumberState::FractionDigits
            | NumberState::ExponentDigits => {},
            _ => {
                return (0, String::new());
            },
        }
    }
    let literal = slice_to_vec(slice_subrange(remaining_bytes, 0, i));
    proof {
        lemma_ascii_is_utf8(literal@);
    }
    match string_from_utf8(literal) {
        Some(text) => (i, text),
        None => (0, String::new()),
    }
}

} // verus!

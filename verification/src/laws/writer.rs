//! The compact text of a value, as a specification: the tokens that spell
//! the value, and the bytes that spell each token.

use vstd::prelude::*;
use vstd::utf8::*;
use crate::ascii::{
    BACKSLASH, COLON, COMMA, DIGIT_0, LEFT_BRACE, LEFT_BRACKET, LOWER_A, LOWER_U, QUOTE,
    RIGHT_BRACE, RIGHT_BRACKET, SPACE,
};
use crate::laws::boundary::{lemma_token_at_agree, same_token_context};
use crate::laws::follow::{chained, may_follow};
use crate::lexer::{
    false_keyword, is_whitespace, lex, lexeme_wf, lexemes_wf, null_keyword, token_at,
    true_keyword, Lexeme,
};
use crate::number::{continues_number, lemma_number_end_bounds};
use crate::text::{escape_bytes, hex4_value, hex_digit_value, string_body, string_literal};
use crate::utf8::code_point_bytes;

verus! {

/// The digit, in lower case, for a value below sixteen.
pub open spec fn hex_digit_byte(value: u8) -> u8 {
    if value < 10 {
        (DIGIT_0 + value) as u8
    } else {
        (LOWER_A + value - 10) as u8
    }
}

/// How one byte of a string's UTF-8 encoding is written between quotes: a
/// quote and a backslash behind a backslash, a control byte as a `\u` escape,
/// any other byte as it is.
pub open spec fn escaped_byte(b: u8) -> Seq<u8> {
    if b == QUOTE {
        seq![BACKSLASH, QUOTE]
    } else if b == BACKSLASH {
        seq![BACKSLASH, BACKSLASH]
    } else if b < SPACE {
        seq![BACKSLASH, LOWER_U, DIGIT_0, DIGIT_0, hex_digit_byte(b / 16), hex_digit_byte(b % 16)]
    } else {
        seq![b]
    }
}

/// How the bytes of a string's UTF-8 encoding are written between quotes.
pub open spec fn escaped(bytes: Seq<u8>) -> Seq<u8>
    decreases bytes.len(),
{
    if bytes.len() == 0 {
        Seq::empty()
    } else {
        escaped_byte(bytes[0]) + escaped(bytes.drop_first())
    }
}

/// The string literal for `text`.
pub open spec fn string_text(text: Seq<char>) -> Seq<u8> {
    seq![QUOTE] + escaped(encode_utf8(text)) + seq![QUOTE]
}

/// The bytes that spell a token.
pub open spec fn lexeme_text(lexeme: Lexeme) -> Seq<u8> {
    match lexeme {
        Lexeme::ArrayBegin => seq![LEFT_BRACKET],
        Lexeme::ArrayEnd => seq![RIGHT_BRACKET],
        Lexeme::ObjectBegin => seq![LEFT_BRACE],
        Lexeme::ObjectEnd => seq![RIGHT_BRACE],
        Lexeme::Colon => seq![COLON],
        Lexeme::Comma => seq![COMMA],
        Lexeme::Null => null_keyword(),
        Lexeme::Boolean(b) => if b {
            true_keyword()
        } else {
            false_keyword()
        },
        Lexeme::Number(text) => encode_utf8(text),
        Lexeme::String(text) => string_text(text),
    }
}

/// The bytes that spell a sequence of tokens, with nothing between them.
pub open spec fn spell(ts: Seq<Lexeme>) -> Seq<u8>
    decreases ts.len(),
{
    if ts.len() == 0 {
        Seq::empty()
    } else {
        lexeme_text(ts[0]) + spell(ts.drop_first())
    }
}

/// Whether `s` holds the bytes `part` from index `at` on.
pub open spec fn holds_at(s: Seq<u8>, at: int, part: Seq<u8>) -> bool {
    &&& 0 <= at
    &&& at + part.len() <= s.len()
    &&& forall|k: int| 0 <= k < part.len() ==> s[at + k] == #[trigger] part[k]
}

proof fn lemma_hex_digit_byte(value: u8)
    requires
        value < 16,
    ensures
        hex_digit_value(hex_digit_byte(value)) == Some(value as u32),
        hex_digit_byte(value) >= SPACE,
{
}

proof fn lemma_control_code_point(b: u8)
    requires
        b < 32,
    ensures
        code_point_bytes(b as u32) == seq![b],
        (b / 16) * 16 + b % 16 == b,
        b / 16 < 16,
        b % 16 < 16,
{
    let c = b as u32;
    assert((c & 0x7F) as u8 == b) by (bit_vector)
        requires
            c == b as u32,
            b < 32,
    ;
    assert(code_point_bytes(c) =~= seq![b]);
}

/// The written form of a string's bytes, behind its opening quote and before
/// its closing quote, decodes to those bytes.
pub proof fn lemma_string_body_of_escaped(s: Seq<u8>, i: int, bytes: Seq<u8>)
    requires
        holds_at(s, i, escaped(bytes) + seq![QUOTE]),
    ensures
        string_body(s, i) == Some((bytes, i + escaped(bytes).len() + 1)),
    decreases bytes.len(),
{
    let written = escaped(bytes) + seq![QUOTE];
    if bytes.len() == 0 {
        assert(written[0] == QUOTE);
        assert(s[i + 0] == written[0]);
    } else {
        let b = bytes[0];
        let first = escaped_byte(b);
        let rest = bytes.drop_first();
        let n = first.len() as int;
        assert(written =~= first + (escaped(rest) + seq![QUOTE]));
        assert forall|k: int| 0 <= k < n implies s[i + k] == first[k] by {
            assert(written[k] == first[k]);
        }
        assert(holds_at(s, i + n, escaped(rest) + seq![QUOTE])) by {
            let tail = escaped(rest) + seq![QUOTE];
            assert forall|k: int| 0 <= k < tail.len() implies s[i + n + k] == #[trigger] tail[k] by {
                assert(written[n + k] == tail[k]);
                assert(s[i + (n + k)] == written[n + k]);
            }
        }
        lemma_string_body_of_escaped(s, i + n, rest);
        let next = string_body(s, i + n);
        assert(seq![b] + rest =~= bytes);
        if b == QUOTE {
            assert(s[i + 0] == first[0]);
            assert(s[i + 1] == first[1]);
        } else if b == BACKSLASH {
            assert(s[i + 0] == first[0]);
            assert(s[i + 1] == first[1]);
        } else if b < SPACE {
            assert(s[i + 0] == first[0]);
            assert(s[i + 1] == first[1]);
            assert(s[i + 2] == first[2]);
            assert(s[i + 3] == first[3]);
            assert(s[i + 4] == first[4]);
            assert(s[i + 5] == first[5]);
            lemma_control_code_point(b);
            lemma_hex_digit_byte(b / 16);
            lemma_hex_digit_byte(b % 16);
            assert(hex4_value(s, i + 2) == Some(b as u32));
            assert(escape_bytes(s, i + 1) == Some(seq![b]));
        } else {
            assert(s[i + 0] == first[0]);
        }
    }
}

/// The string literal for a text is a literal for that text, whatever stands
/// behind it.
pub proof fn lemma_string_literal_of_text(s: Seq<u8>, text: Seq<char>)
    requires
        holds_at(s, 0, string_text(text)),
    ensures
        string_literal(s) == Some((text, string_text(text).len() as int)),
{
    let bytes = encode_utf8(text);
    let written = string_text(text);
    assert(written[0] == QUOTE);
    assert(s[0int + 0] == written[0]);
    assert(holds_at(s, 1, escaped(bytes) + seq![QUOTE])) by {
        let tail = escaped(bytes) + seq![QUOTE];
        assert(written =~= seq![QUOTE] + tail);
        assert forall|k: int| 0 <= k < tail.len() implies s[1 + k] == #[trigger] tail[k] by {
            assert(written[1 + k] == tail[k]);
            assert(s[0 + (1 + k)] == written[1 + k]);
        }
    }
    lemma_string_body_of_escaped(s, 1, bytes);
    encode_utf8_valid_utf8(text);
    encode_utf8_decode_utf8(text);
}

/// The bytes that spell a well-formed token are a token, and that token,
/// where what stands behind them continues no number.
pub proof fn lemma_token_at_of_text(s: Seq<u8>, lexeme: Lexeme)
    requires
        lexeme_wf(lexeme),
        holds_at(s, 0, lexeme_text(lexeme)),
        lexeme is Number && s.len() > lexeme_text(lexeme).len() ==> !continues_number(
            s[lexeme_text(lexeme).len() as int],
        ),
    ensures
        s.len() > 0,
        !is_whitespace(s[0]),
        token_at(s) == Some((lexeme, lexeme_text(lexeme).len() as int)),
{
    let written = lexeme_text(lexeme);
    let n = written.len() as int;
    match lexeme {
        Lexeme::Number(text) => {
            lemma_number_end_bounds(written);
            assert(s[0int + 0] == written[0]);
            assert(written.subrange(0, n) =~= written);
            encode_utf8_decode_utf8(text);
            assert(token_at(written) == Some((lexeme, n)));
            assert(same_token_context(written, s)) by {
                assert forall|k: int| 0 <= k < n implies written[k] == s[k] by {
                    assert(s[0 + k] == written[k]);
                }
            }
            lemma_token_at_agree(written, s);
        },
        Lexeme::String(text) => {
            lemma_string_literal_of_text(s, text);
            assert(written[0] == QUOTE);
            assert(s[0int + 0] == written[0]);
        },
        _ => {
            assert(s[0int + 0] == written[0]);
            assert(written =~= s.subrange(0, n)) by {
                assert forall|k: int| 0 <= k < n implies written[k] == s.subrange(0, n)[k] by {
                    assert(s[0 + k] == written[k]);
                }
            }
        },
    }
}

/// The first byte that spells a token which may follow a number continues
/// no number.
proof fn lemma_behind_number(first: Lexeme, second: Lexeme)
    requires
        first is Number,
        may_follow(first, second),
    ensures
        lexeme_text(second).len() > 0,
        !continues_number(lexeme_text(second)[0]),
{
}

/// Well-formed tokens, each of which may follow the one before, are the
/// tokens of the bytes that spell them.
pub proof fn lemma_lex_of_spell(ts: Seq<Lexeme>)
    requires
        lexemes_wf(ts),
        chained(ts, 0, ts.len() as int),
    ensures
        lex(spell(ts)) == Some(ts),
    decreases ts.len(),
{
    if ts.len() > 0 {
        let first = ts[0];
        let rest = ts.drop_first();
        let written = lexeme_text(first);
        let s = spell(ts);
        let n = written.len() as int;
        assert(lexemes_wf(rest)) by {
            assert forall|i: int| 0 <= i < rest.len() implies lexeme_wf(#[trigger] rest[i]) by {
                assert(rest[i] == ts[i + 1]);
            }
        }
        assert(chained(rest, 0, rest.len() as int)) by {
            assert forall|k: int| 0 <= k && k + 1 < rest.len() implies may_follow(
                #[trigger] rest[k],
                rest[k + 1],
            ) by {
                assert(rest[k] == ts[k + 1]);
                assert(may_follow(ts[k + 1], ts[k + 1 + 1]));
            }
        }
        lemma_lex_of_spell(rest);
        assert(holds_at(s, 0, written));
        if first is Number && rest.len() > 0 {
            assert(may_follow(ts[0], ts[0int + 1]));
            lemma_behind_number(first, rest[0]);
            assert(s[n] == spell(rest)[0]);
            assert(spell(rest)[0] == lexeme_text(rest[0])[0]);
        }
        if rest.len() == 0 {
            assert(spell(rest).len() == 0);
        }
        lemma_token_at_of_text(s, first);
        assert(s.skip(n) =~= spell(rest));
        assert(seq![first] + rest =~= ts);
    }
}

} // verus!

//! The lexer: one pass over the bytes, left to right, that skips whitespace
//! and recognises the next token greedily.

use vstd::prelude::*;
use vstd::slice::*;
use vstd::utf8::*;
use crate::ascii::{
    CARRIAGE_RETURN, COLON, COMMA, DIGIT_0, DIGIT_9, LEFT_BRACE, LEFT_BRACKET, LINE_FEED, LOWER_A,
    LOWER_E, LOWER_F, LOWER_L, LOWER_N, LOWER_R, LOWER_S, LOWER_T, LOWER_U, MINUS, QUOTE,
    RIGHT_BRACE, RIGHT_BRACKET, SPACE, TAB,
};
use crate::number::{
    is_digit, is_number_text, lemma_number_end_bounds, lemma_number_literal_text, number_end,
    peek_number,
};
use crate::text::{lemma_string_body_bounds, peek_string, string_literal};

verus! {

/// The mathematical model of a token.
pub enum Lexeme {
    ArrayBegin,
    ArrayEnd,
    Boolean(bool),
    Colon,
    Comma,
    Null,
    Number(Seq<char>),
    ObjectBegin,
    ObjectEnd,
    String(Seq<char>),
}

/// A lexical unit. A number carries the text of its literal, a string the text
/// that its literal decodes to.
#[derive(Debug, PartialEq)]
pub enum Token {
    ArrayBegin,
    ArrayEnd,
    Boolean(bool),
    Colon,
    Comma,
    Null,
    Number(String),
    ObjectBegin,
    ObjectEnd,
    String(String),
}

impl View for Token {
    type V = Lexeme;

    open spec fn view(&self) -> Lexeme {
        match self {
            Token::ArrayBegin => Lexeme::ArrayBegin,
            Token::ArrayEnd => Lexeme::ArrayEnd,
            Token::Boolean(b) => Lexeme::Boolean(*b),
            Token::Colon => Lexeme::Colon,
            Token::Comma => Lexeme::Comma,
            Token::Null => Lexeme::Null,
            Token::Number(text) => Lexeme::Number(text@),
            Token::ObjectBegin => Lexeme::ObjectBegin,
            Token::ObjectEnd => Lexeme::ObjectEnd,
            Token::String(text) => Lexeme::String(text@),
        }
    }
}

/// The models of a sequence of tokens.
pub open spec fn lexemes_of(tokens: Seq<Token>) -> Seq<Lexeme> {
    tokens.map_values(|token: Token| token@)
}

/// The models of the tokens that a lexer run gave, if it gave any.
pub open spec fn lexed(r: Option<Vec<Token>>) -> Option<Seq<Lexeme>> {
    match r {
        Some(tokens) => Some(lexemes_of(tokens@)),
        None => None,
    }
}

pub open spec fn is_whitespace(b: u8) -> bool {
    b == TAB || b == LINE_FEED || b == CARRIAGE_RETURN || b == SPACE
}

pub open spec fn true_keyword() -> Seq<u8> {
    seq![LOWER_T, LOWER_R, LOWER_U, LOWER_E]
}

pub open spec fn false_keyword() -> Seq<u8> {
    seq![LOWER_F, LOWER_A, LOWER_L, LOWER_S, LOWER_E]
}

pub open spec fn null_keyword() -> Seq<u8> {
    seq![LOWER_N, LOWER_U, LOWER_L, LOWER_L]
}

/// The length of `keyword` where `s` starts with it, else `0`.
pub open spec fn keyword_len(s: Seq<u8>, keyword: Seq<u8>) -> nat {
    if keyword.is_prefix_of(s) {
        keyword.len()
    } else {
        0
    }
}

/// The keyword's token where `s` starts with the keyword.
pub open spec fn keyword_token(s: Seq<u8>, keyword: Seq<u8>, lexeme: Lexeme) -> Option<
    (Lexeme, int),
> {
    if keyword.is_prefix_of(s) {
        Some((lexeme, keyword.len() as int))
    } else {
        None
    }
}

/// The token at the start of `s` and its length in bytes, where `s` starts
/// with a token. The first byte decides which kind is tried, and no other
/// kind is tried after it.
pub open spec fn token_at(s: Seq<u8>) -> Option<(Lexeme, int)>
    recommends
        s.len() > 0,
{
    let b = s[0];
    if b == LEFT_BRACKET {
        Some((Lexeme::ArrayBegin, 1))
    } else if b == RIGHT_BRACKET {
        Some((Lexeme::ArrayEnd, 1))
    } else if b == LEFT_BRACE {
        Some((Lexeme::ObjectBegin, 1))
    } else if b == RIGHT_BRACE {
        Some((Lexeme::ObjectEnd, 1))
    } else if b == COLON {
        Some((Lexeme::Colon, 1))
    } else if b == COMMA {
        Some((Lexeme::Comma, 1))
    } else if b == LOWER_T {
        keyword_token(s, true_keyword(), Lexeme::Boolean(true))
    } else if b == LOWER_F {
        keyword_token(s, false_keyword(), Lexeme::Boolean(false))
    } else if b == LOWER_N {
        keyword_token(s, null_keyword(), Lexeme::Null)
    } else if b == MINUS || is_digit(b) {
        match number_end(s) {
            Some(n) => Some((Lexeme::Number(decode_utf8(s.subrange(0, n))), n)),
            None => None,
        }
    } else if b == QUOTE {
        match string_literal(s) {
            Some((text, end)) => Some((Lexeme::String(text), end)),
            None => None,
        }
    } else {
        None
    }
}

/// A token is not empty and ends inside the sequence.
pub proof fn lemma_token_at_bounds(s: Seq<u8>)
    requires
        s.len() > 0,
        token_at(s) is Some,
    ensures
        0 < token_at(s).unwrap().1 <= s.len(),
{
    let b = s[0];
    if b == MINUS || is_digit(b) {
        lemma_number_end_bounds(s);
    } else if b == QUOTE {
        lemma_string_body_bounds(s, 1);
    }
}

/// Puts `lexeme` before the tokens of a lexer run.
pub open spec fn lexeme_then(lexeme: Lexeme, rest: Option<Seq<Lexeme>>) -> Option<Seq<Lexeme>> {
    match rest {
        Some(lexemes) => Some(seq![lexeme] + lexemes),
        None => None,
    }
}

/// The tokens of `s`, in order, where all of `s` is whitespace and tokens.
pub open spec fn lex(s: Seq<u8>) -> Option<Seq<Lexeme>>
    decreases s.len(),
{
    if s.len() == 0 {
        Some(Seq::empty())
    } else if is_whitespace(s[0]) {
        lex(s.skip(1))
    } else {
        match token_at(s) {
            Some((lexeme, n)) => {
                proof {
                    lemma_token_at_bounds(s);
                }
                lexeme_then(lexeme, lex(s.skip(n)))
            },
            None => None,
        }
    }
}

/// Whether a token, where it is a number, carries a number text.
pub open spec fn lexeme_wf(lexeme: Lexeme) -> bool {
    lexeme matches Lexeme::Number(text) ==> is_number_text(text)
}

/// Whether every number among the tokens carries a number text.
pub open spec fn lexemes_wf(ts: Seq<Lexeme>) -> bool {
    forall|i: int| 0 <= i < ts.len() ==> lexeme_wf(#[trigger] ts[i])
}

/// The lexer's numbers carry number texts.
pub proof fn lemma_lex_wf(s: Seq<u8>)
    requires
        lex(s) is Some,
    ensures
        lexemes_wf(lex(s).unwrap()),
    decreases s.len(),
{
    if s.len() == 0 {
    } else if is_whitespace(s[0]) {
        lemma_lex_wf(s.skip(1));
    } else {
        let (lexeme, n) = token_at(s).unwrap();
        lemma_token_at_bounds(s);
        lemma_lex_wf(s.skip(n));
        if lexeme is Number {
            lemma_number_literal_text(s);
        }
        let rest = lex(s.skip(n)).unwrap();
        assert forall|i: int| 0 <= i < (seq![lexeme] + rest).len() implies lexeme_wf(
            #[trigger] (seq![lexeme] + rest)[i],
        ) by {
            if i > 0 {
                assert((seq![lexeme] + rest)[i] == rest[i - 1]);
            }
        }
    }
}

/// Puts `prefix` before the tokens of a lexer run.
pub open spec fn lexemes_then(prefix: Seq<Lexeme>, rest: Option<Seq<Lexeme>>) -> Option<
    Seq<Lexeme>,
> {
    match rest {
        Some(lexemes) => Some(prefix + lexemes),
        None => None,
    }
}

/// Finds `keyword` at the start of `remaining_bytes` and returns its length,
/// otherwise `0`.
pub fn peek_keyword(remaining_bytes: &[u8], keyword: &[u8]) -> (r: usize)
    ensures
        r == keyword_len(remaining_bytes@, keyword@),
{
    let n = keyword.len();
    if n > remaining_bytes.len() {
        return 0;
    }
    let mut i: usize = 0;
    while i < n
        invariant
            i <= n,
            n == keyword@.len(),
            n <= remaining_bytes@.len(),
            forall|j: int| 0 <= j < i ==> remaining_bytes@[j] == keyword@[j],
        decreases n - i,
    {
        if remaining_bytes[i] != keyword[i] {
            proof {
                assert(remaining_bytes@.subrange(0, n as int)[i as int] != keyword@[i as int]);
            }
            return 0;
        }
        i += 1;
    }
    proof {
        assert(keyword@ =~= remaining_bytes@.subrange(0, n as int));
    }
    n
}

/// Finds the token at the start of `remaining_bytes` and returns it with its
/// length, otherwise `None`: whitespace is no token, and nothing is none.
pub fn peek_token(remaining_bytes: &[u8]) -> (r: Option<(Token, usize)>)
    ensures
        match r {
            Some((token, token_len)) => remaining_bytes@.len() > 0 && token_at(remaining_bytes@)
                == Some((token@, token_len as int)),
            None => remaining_bytes@.len() == 0 || token_at(remaining_bytes@) is None,
        },
{
    if remaining_bytes.len() == 0 {
        return None;
    }
    let byte = remaining_bytes[0];
    if byte == LEFT_BRACKET {
        Some((Token::ArrayBegin, 1))
    } else if byte == RIGHT_BRACKET {
        Some((Token::ArrayEnd, 1))
    } else if byte == LOWER_T {
        let keyword: [u8; 4] = [LOWER_T, LOWER_R, LOWER_U, LOWER_E];
        assert(keyword@ =~= true_keyword());
        let peeked_len = peek_keyword(remaining_bytes, keyword.as_slice());
        if peeked_len == 0 {
            None
        } else {
            Some((Token::Boolean(true), peeked_len))
        }
    } else if byte == LOWER_F {
        let keyword: [u8; 5] = [LOWER_F, LOWER_A, LOWER_L, LOWER_S, LOWER_E];
        assert(keyword@ =~= false_keyword());
        let peeked_len = peek_keyword(remaining_bytes, keyword.as_slice());
        if peeked_len == 0 {
            None
        } else {
            Some((Token::Boolean(false), peeked_len))
        }
    } else if byte == COLON {
        Some((Token::Colon, 1))
    } else if byte == COMMA {
        Some((Token::Comma, 1))
    } else if byte == LOWER_N {
        let keyword: [u8; 4] = [LOWER_N, LOWER_U, LOWER_L, LOWER_L];
        assert(keyword@ =~= null_keyword());
        let peeked_len = peek_keyword(remaining_bytes, keyword.as_slice());
        if peeked_len == 0 {
            None
        } else {
            Some((Token::Null, peeked_len))
        }
    } else if byte == MINUS || (DIGIT_0 <= byte && byte <= DIGIT_9) {
        let (peeked_len, number) = peek_number(remaining_bytes);
        if peeked_len == 0 {
            None
        } else {
            Some((Token::Number(number), peeked_len))
        }
    } else if byte == LEFT_BRACE {
        Some((Token::ObjectBegin, 1))
    } else if byte == RIGHT_BRACE {
        Some((Token::ObjectEnd, 1))
    } else if byte == QUOTE {
        let (peeked_len, string) = peek_string(remaining_bytes);
        if peeked_len == 0 {
            None
        } else {
            Some((Token::String(string), peeked_len))
        }
    } else {
        None
    }
}

/// Tokenizes all of `bytes`, otherwise `None`.
pub fn tokenize(bytes: &[u8]) -> (r: Option<Vec<Token>>)
    ensures
        lexed(r) == lex(bytes@),
{
    let ghost s = bytes@;
    let len = bytes.len();
    let mut tokens: Vec<Token> = Vec::new();
    let mut i: usize = 0;
    proof {
        assert(s.skip(0) =~= s);
        assert(lexemes_of(tokens@) =~= Seq::<Lexeme>::empty());
        if let Some(all) = lex(s) {
            assert(Seq::<Lexeme>::empty() + all =~= all);
        }
    }
    while i < len
        invariant
            s == bytes@,
            len == s.len(),
            i <= len,
            lex(s) == lexemes_then(lexemes_of(tokens@), lex(s.skip(i as int))),
        decreases len - i,
    {
        let byte = bytes[i];
        let ghost rest = s.skip(i as int);
        if byte == TAB || byte == LINE_FEED || byte == CARRIAGE_RETURN || byte == SPACE {
            proof {
                assert(rest.skip(1) =~= s.skip(i + 1));
            }
            i += 1;
            continue ;
        }
        let remaining_bytes = slice_subrange(bytes, i, len);
        assert(remaining_bytes@ == rest);
        match peek_token(remaining_bytes) {
            Some((token, token_len)) => {
                proof {
                    lemma_token_at_bounds(rest);
                    assert(rest.skip(token_len as int) =~= s.skip(i + token_len));
                    let before = lexemes_of(tokens@);
                    let after = lexemes_of(tokens@.push(token));
                    assert(after =~= before + seq![token@]);
                    if let Some(tail) = lex(s.skip(i + token_len)) {
                        assert(before + (seq![token@] + tail) =~= after + tail);
                    }
                }
                i += token_len;
                tokens.push(token);
            },
            None => {
                return None;
            },
        }
    }
    proof {
        assert(lexemes_of(tokens@) + Seq::<Lexeme>::empty() =~= lexemes_of(tokens@));
    }
    Some(tokens)
}

} // verus!

//! Token boundaries: the positions of a text at which the lexer stands
//! between two tokens, and what does not change the tokens there.

use vstd::prelude::*;
use crate::ascii::{DIGIT_0, DOT, MINUS, QUOTE};
use crate::laws::extent::lemma_trailing_tokens_fail;
use crate::laws::follow::lemma_adjacent_values_fail;
use crate::grammar::parse_text;
use crate::lexer::{
    is_whitespace, lemma_token_at_bounds, lex, lexeme_then, lexemes_then, token_at, Lexeme,
};
use crate::number::{is_digit, lemma_number_end_agree, number_end, same_number_context};
use crate::text::lemma_string_literal_agree;

verus! {

/// The tokens of `s` before position `p`, where `p` is a token boundary: the
/// start of `s`, or a position that the lexer reaches behind a token or a
/// whitespace byte.
pub open spec fn lex_until(s: Seq<u8>, p: int) -> Option<Seq<Lexeme>>
    decreases s.len(),
{
    if p == 0 {
        Some(Seq::empty())
    } else if p < 0 || s.len() == 0 {
        None
    } else if is_whitespace(s[0]) {
        lex_until(s.skip(1), p - 1)
    } else {
        match token_at(s) {
            Some((lexeme, n)) => {
                proof {
                    lemma_token_at_bounds(s);
                }
                lexeme_then(lexeme, lex_until(s.skip(n), p - n))
            },
            None => None,
        }
    }
}

/// Whether `p` is a token boundary of `s`.
pub open spec fn is_boundary(s: Seq<u8>, p: int) -> bool {
    lex_until(s, p) is Some
}

/// A boundary lies inside the text, and the tokens of the text are those
/// before the boundary and those of the rest.
pub proof fn lemma_lex_split(s: Seq<u8>, p: int)
    requires
        is_boundary(s, p),
    ensures
        0 <= p <= s.len(),
        lex(s) == lexemes_then(lex_until(s, p).unwrap(), lex(s.skip(p))),
    decreases s.len(),
{
    if p == 0 {
        assert(s.skip(0) =~= s);
        if let Some(all) = lex(s) {
            assert(Seq::<Lexeme>::empty() + all =~= all);
        }
    } else if is_whitespace(s[0]) {
        lemma_lex_split(s.skip(1), p - 1);
        assert(s.skip(1).skip(p - 1) =~= s.skip(p));
    } else {
        let (lexeme, n) = token_at(s).unwrap();
        lemma_token_at_bounds(s);
        lemma_lex_split(s.skip(n), p - n);
        assert(s.skip(n).skip(p - n) =~= s.skip(p));
        let before = lex_until(s.skip(n), p - n).unwrap();
        if let Some(rest) = lex(s.skip(p)) {
            assert(seq![lexeme] + (before + rest) =~= (seq![lexeme] + before) + rest);
        }
    }
}

/// Whether `t` holds the bytes of the token at the start of `s` and, behind
/// a number, the same context.
pub open spec fn same_token_context(s: Seq<u8>, t: Seq<u8>) -> bool {
    let (lexeme, n) = token_at(s).unwrap();
    &&& n <= t.len()
    &&& forall|k: int| 0 <= k < n ==> s[k] == t[k]
    &&& lexeme is Number ==> same_number_context(s, t, n)
}

/// A token is the same token in every sequence that holds its bytes and,
/// behind a number, the same context.
pub proof fn lemma_token_at_agree(s: Seq<u8>, t: Seq<u8>)
    requires
        s.len() > 0,
        token_at(s) is Some,
        same_token_context(s, t),
    ensures
        token_at(t) == token_at(s),
{
    let (lexeme, n) = token_at(s).unwrap();
    lemma_token_at_bounds(s);
    let b = s[0];
    assert(t[0] == b);
    if b == MINUS || is_digit(b) {
        lemma_number_end_agree(s, t);
        assert(s.subrange(0, n) =~= t.subrange(0, n));
    } else if b == QUOTE {
        lemma_string_literal_agree(s, t);
    } else {
        assert(s.subrange(0, n) =~= t.subrange(0, n));
    }
}

/// The tokens before a boundary are the same in every sequence that holds the
/// bytes before the boundary and the same context behind them.
pub proof fn lemma_lex_until_agree(s: Seq<u8>, t: Seq<u8>, p: int)
    requires
        is_boundary(s, p),
        same_number_context(s, t, p),
    ensures
        lex_until(t, p) == lex_until(s, p),
    decreases s.len(),
{
    if p == 0 {
    } else if is_whitespace(s[0]) {
        assert(t[0] == s[0]);
        assert(same_number_context(s.skip(1), t.skip(1), p - 1)) by {
            assert forall|k: int| 0 <= k < p - 1 implies s.skip(1)[k] == t.skip(1)[k] by {
                assert(s[k + 1] == t[k + 1]);
            }
        }
        lemma_lex_until_agree(s.skip(1), t.skip(1), p - 1);
    } else {
        let (lexeme, n) = token_at(s).unwrap();
        lemma_token_at_bounds(s);
        lemma_lex_split(s.skip(n), p - n);
        assert(n <= p);
        assert(same_number_context(s, t, n)) by {
            if n < p {
                assert(s[n] == t[n]);
            }
        }
        lemma_token_at_agree(s, t);
        assert(same_number_context(s.skip(n), t.skip(n), p - n)) by {
            assert forall|k: int| 0 <= k < p - n implies s.skip(n)[k] == t.skip(n)[k] by {
                assert(s[k + n] == t[k + n]);
            }
        }
        lemma_lex_until_agree(s.skip(n), t.skip(n), p - n);
    }
}

/// Behind a whitespace byte that stands at a boundary is a boundary, with
/// the same tokens before it.
pub proof fn lemma_boundary_behind_whitespace(s: Seq<u8>, p: int)
    requires
        is_boundary(s, p),
        0 <= p < s.len(),
        is_whitespace(s[p]),
    ensures
        lex_until(s, p + 1) == lex_until(s, p),
    decreases s.len(),
{
    if p == 0 {
    } else if is_whitespace(s[0]) {
        lemma_boundary_behind_whitespace(s.skip(1), p - 1);
    } else {
        let (lexeme, n) = token_at(s).unwrap();
        lemma_token_at_bounds(s);
        lemma_lex_split(s.skip(n), p - n);
        lemma_boundary_behind_whitespace(s.skip(n), p - n);
    }
}

/// The end of a text that is all whitespace and tokens is a boundary, and
/// all its tokens stand before it.
pub proof fn lemma_end_is_boundary(s: Seq<u8>)
    requires
        lex(s) is Some,
    ensures
        lex_until(s, s.len() as int) == lex(s),
    decreases s.len(),
{
    if s.len() == 0 {
    } else if is_whitespace(s[0]) {
        lemma_end_is_boundary(s.skip(1));
    } else {
        let (lexeme, n) = token_at(s).unwrap();
        lemma_token_at_bounds(s);
        lemma_end_is_boundary(s.skip(n));
    }
}

/// A whitespace byte between two tokens changes nothing: where the end of
/// `a` is a token boundary of `a + b`, the text with the byte put in there
/// has the tokens, and so the value, of the text without it. The byte stands
/// between two boundaries, so that more can be put in.
pub proof fn lemma_whitespace_between_tokens(a: Seq<u8>, b: Seq<u8>, w: u8)
    requires
        is_whitespace(w),
        is_boundary(a + b, a.len() as int),
    ensures
        lex(a + seq![w] + b) == lex(a + b),
        parse_text(a + seq![w] + b) == parse_text(a + b),
        is_boundary(a + seq![w] + b, a.len() as int),
        is_boundary(a + seq![w] + b, a.len() as int + 1),
{
    let s = a + b;
    let t = a + seq![w] + b;
    let p = a.len() as int;
    assert(same_number_context(s, t, p)) by {
        assert(t[p] == w);
    }
    lemma_lex_until_agree(s, t, p);
    lemma_lex_split(s, p);
    lemma_lex_split(t, p);
    assert(s.skip(p) =~= b);
    assert(t.skip(p) =~= seq![w] + b);
    assert((seq![w] + b).skip(1) =~= b);
    assert(t[p] == w);
    lemma_boundary_behind_whitespace(t, p);
}

/// Whether every byte of `run` is a whitespace byte.
pub open spec fn all_whitespace(run: Seq<u8>) -> bool {
    forall|i: int| 0 <= i < run.len() ==> is_whitespace(#[trigger] run[i])
}

/// Whitespace between two tokens changes nothing, however much of it:
/// where the end of `a` is a token boundary of `a + b`, the text with a run
/// of whitespace put in there has the tokens, and so the value, of the text
/// without it. Read from right to left, this takes the whitespace out.
pub proof fn lemma_whitespace_run_between_tokens(a: Seq<u8>, b: Seq<u8>, run: Seq<u8>)
    requires
        all_whitespace(run),
        is_boundary(a + b, a.len() as int),
    ensures
        lex(a + run + b) == lex(a + b),
        parse_text(a + run + b) == parse_text(a + b),
        is_boundary(a + run + b, a.len() as int + run.len()),
    decreases run.len(),
{
    if run.len() == 0 {
        assert(a + run + b =~= a + b);
    } else {
        let front = run.drop_last();
        let w = run.last();
        lemma_whitespace_run_between_tokens(a, b, front);
        assert((a + front) + b =~= a + front + b);
        lemma_whitespace_between_tokens(a + front, b, w);
        assert((a + front) + seq![w] + b =~= a + run + b) by {
            assert(front + seq![w] =~= run);
            assert((a + front) + seq![w] =~= a + (front + seq![w]));
        }
    }
}

/// Tokens behind a complete JSON text fail the parse: where `a` is a JSON
/// text and `b`, behind a whitespace byte, holds at least one token, the
/// whole is no JSON text.
pub proof fn lemma_trailing_text_fails(a: Seq<u8>, b: Seq<u8>, w: u8)
    requires
        is_whitespace(w),
        parse_text(a) is Some,
        lex(b) matches Some(extra) && extra.len() > 0,
    ensures
        parse_text(a + seq![w] + b) is None,
{
    let t = a + seq![w] + b;
    let p = a.len() as int;
    lemma_end_is_boundary(a);
    assert(same_number_context(a, t, p)) by {
        assert(t[p] == w);
    }
    lemma_lex_until_agree(a, t, p);
    lemma_lex_split(t, p);
    assert(t.skip(p) =~= seq![w] + b);
    assert((seq![w] + b).skip(1) =~= b);
    lemma_trailing_tokens_fail(lex(a).unwrap(), lex(b).unwrap());
}

/// Where the lexer stands at a boundary before a byte that is no whitespace
/// and starts no token, the text has no tokens and no value.
pub proof fn lemma_bad_token_fails(s: Seq<u8>, p: int)
    requires
        is_boundary(s, p),
        p < s.len(),
        !is_whitespace(s[p]),
        token_at(s.skip(p)) is None,
    ensures
        lex(s) is None,
        parse_text(s) is None,
{
    lemma_lex_split(s, p);
}

/// A dot where a token should start fails the parse: a number starts with
/// its integer part.
pub proof fn lemma_leading_dot_fails(s: Seq<u8>, p: int)
    requires
        is_boundary(s, p),
        0 <= p < s.len(),
        s[p] == DOT,
    ensures
        parse_text(s) is None,
{
    assert(s.skip(p)[0] == s[p]);
    lemma_bad_token_fails(s, p);
}

/// A number that is cut short where a token should stand fails the parse.
pub proof fn lemma_bad_number_fails(s: Seq<u8>, p: int)
    requires
        is_boundary(s, p),
        0 <= p < s.len(),
        s[p] == MINUS || is_digit(s[p]),
        number_end(s.skip(p)) is None,
    ensures
        parse_text(s) is None,
{
    assert(s.skip(p)[0] == s[p]);
    lemma_bad_token_fails(s, p);
}

/// A zero directly before a digit, alone or behind a minus sign, fails the
/// parse wherever a token can start: the zero is a number of its own, and
/// the digit starts a second number directly behind it.
pub proof fn lemma_leading_zero_fails(s: Seq<u8>, p: int)
    requires
        is_boundary(s, p),
        0 <= p,
        (p + 1 < s.len() && s[p] == DIGIT_0 && is_digit(s[p + 1])) || (p + 2 < s.len() && s[p]
            == MINUS && s[p + 1] == DIGIT_0 && is_digit(s[p + 2])),
    ensures
        parse_text(s) is None,
{
    lemma_lex_split(s, p);
    let before = lex_until(s, p).unwrap();
    let r = s.skip(p);
    let n: int = if s[p] == MINUS {
        2
    } else {
        1
    };
    assert(r[0] == s[p]);
    assert(r[1] == s[p + 1]);
    assert(r[n - 1] == DIGIT_0);
    assert(r[n] == s[p + n]);
    assert(number_end(r) == Some(n));
    let first = token_at(r).unwrap().0;
    let q = r.skip(n);
    assert(q[0] == r[n]);
    assert(lex(r) == lexeme_then(first, lex(q)));
    if let Some(rest) = lex(q) {
        let (second, m) = token_at(q).unwrap();
        lemma_token_at_bounds(q);
        let tail = lex(q.skip(m)).unwrap();
        let ts = lex(s).unwrap();
        assert(rest == seq![second] + tail);
        assert(ts == before + (seq![first] + rest));
        assert(ts[before.len() as int] == first);
        assert(ts[before.len() as int + 1] == second);
        lemma_adjacent_values_fail(ts, before.len() as int);
    }
}

} // verus!

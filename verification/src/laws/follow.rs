//! Which token may follow which: what holds of every pair of neighbours in
//! the tokens of a JSON text, and what that rules out.

use vstd::prelude::*;
use crate::grammar::{
    array_after, array_begin, array_item, object_after, object_begin, object_member,
    object_value, parse_tokens, value_at,
};
use crate::lexer::Lexeme;
use crate::members::{has_key, insert_entry};
use crate::value::Value;

verus! {

/// The tokens with which a value can start.
pub open spec fn starts_value(lexeme: Lexeme) -> bool {
    lexeme is Null || lexeme is Boolean || lexeme is Number || lexeme is String
        || lexeme is ArrayBegin || lexeme is ObjectBegin
}

/// The tokens with which a value can end.
pub open spec fn ends_value(lexeme: Lexeme) -> bool {
    lexeme is Null || lexeme is Boolean || lexeme is Number || lexeme is String
        || lexeme is ArrayEnd || lexeme is ObjectEnd
}

/// Whether `second` may stand directly behind `first` in a JSON text.
pub open spec fn may_follow(first: Lexeme, second: Lexeme) -> bool {
    match first {
        Lexeme::ArrayBegin => starts_value(second) || second is ArrayEnd,
        Lexeme::ObjectBegin => second is String || second is ObjectEnd,
        Lexeme::Comma => starts_value(second),
        Lexeme::Colon => starts_value(second),
        Lexeme::String(_) => second is Colon || second is Comma || second is ArrayEnd
            || second is ObjectEnd,
        _ => second is Comma || second is ArrayEnd || second is ObjectEnd,
    }
}

/// Whether each token from `from` up to `to`, but the last, is followed by
/// one that may follow it.
pub open spec fn chained(ts: Seq<Lexeme>, from: int, to: int) -> bool {
    forall|k: int| from <= k && k + 1 < to ==> may_follow(#[trigger] ts[k], ts[k + 1])
}

/// What holds of the tokens that a result covers: they are chained, and the
/// last of them closes what was being read.
pub open spec fn covered(r: Option<(Value, int)>, ts: Seq<Lexeme>, i: int, last: Lexeme) -> bool {
    r matches Some((_, end)) ==> chained(ts, i, end) && i < end <= ts.len() && ts[end - 1] == last
}

pub proof fn lemma_value_at_chained(ts: Seq<Lexeme>, i: int)
    ensures
        value_at(ts, i) matches Some((_, end)) ==> chained(ts, i, end) && 0 <= i < end <= ts.len()
            && starts_value(ts[i]) && ends_value(ts[end - 1]),
    decreases ts.len() - i, 0int,
{
    if 0 <= i < ts.len() {
        match ts[i] {
            Lexeme::ArrayBegin => {
                lemma_array_begin_chained(ts, i + 1);
            },
            Lexeme::ObjectBegin => {
                lemma_object_begin_chained(ts, i + 1);
            },
            _ => {},
        }
    }
}

pub proof fn lemma_array_begin_chained(ts: Seq<Lexeme>, i: int)
    requires
        0 <= i,
    ensures
        covered(array_begin(ts, i), ts, i, Lexeme::ArrayEnd),
        array_begin(ts, i) is Some ==> starts_value(ts[i]) || ts[i] is ArrayEnd,
    decreases ts.len() - i, 2int,
{
    if !(0 <= i < ts.len() && ts[i] is ArrayEnd) {
        lemma_array_item_chained(ts, i, Seq::empty());
    }
}

pub proof fn lemma_array_item_chained(ts: Seq<Lexeme>, i: int, items: Seq<Value>)
    requires
        0 <= i,
    ensures
        covered(array_item(ts, i, items), ts, i, Lexeme::ArrayEnd),
        array_item(ts, i, items) is Some ==> starts_value(ts[i]),
    decreases ts.len() - i, 1int,
{
    lemma_value_at_chained(ts, i);
    if let Some((item, next)) = value_at(ts, i) {
        lemma_array_after_chained(ts, next, items.push(item));
    }
}

pub proof fn lemma_array_after_chained(ts: Seq<Lexeme>, i: int, items: Seq<Value>)
    requires
        0 <= i,
    ensures
        covered(array_after(ts, i, items), ts, i, Lexeme::ArrayEnd),
        array_after(ts, i, items) is Some ==> ts[i] is Comma || ts[i] is ArrayEnd,
    decreases ts.len() - i, 3int,
{
    if 0 <= i < ts.len() && ts[i] is Comma {
        lemma_array_item_chained(ts, i + 1, items);
    }
}

pub proof fn lemma_object_begin_chained(ts: Seq<Lexeme>, i: int)
    requires
        0 <= i,
    ensures
        covered(object_begin(ts, i), ts, i, Lexeme::ObjectEnd),
        object_begin(ts, i) is Some ==> ts[i] is String || ts[i] is ObjectEnd,
    decreases ts.len() - i, 2int,
{
    if !(0 <= i < ts.len() && ts[i] is ObjectEnd) {
        lemma_object_member_chained(ts, i, Seq::empty());
    }
}

pub proof fn lemma_object_member_chained(
    ts: Seq<Lexeme>,
    i: int,
    members: Seq<(Seq<char>, Value)>,
)
    requires
        0 <= i,
    ensures
        covered(object_member(ts, i, members), ts, i, Lexeme::ObjectEnd),
        object_member(ts, i, members) is Some ==> ts[i] is String,
    decreases ts.len() - i, 1int,
{
    if 0 <= i < ts.len() {
        if let Lexeme::String(key) = ts[i] {
            if i + 1 < ts.len() && ts[i + 1] is Colon {
                lemma_object_value_chained(ts, i + 2, members, key);
            }
        }
    }
}

pub proof fn lemma_object_value_chained(
    ts: Seq<Lexeme>,
    i: int,
    members: Seq<(Seq<char>, Value)>,
    key: Seq<char>,
)
    requires
        0 <= i,
    ensures
        covered(object_value(ts, i, members, key), ts, i, Lexeme::ObjectEnd),
        object_value(ts, i, members, key) is Some ==> starts_value(ts[i]),
    decreases ts.len() - i, 1int,
{
    lemma_value_at_chained(ts, i);
    if !has_key(members, key) {
        if let Some((value, next)) = value_at(ts, i) {
            lemma_object_after_chained(ts, next, insert_entry(members, key, value));
        }
    }
}

pub proof fn lemma_object_after_chained(
    ts: Seq<Lexeme>,
    i: int,
    members: Seq<(Seq<char>, Value)>,
)
    requires
        0 <= i,
    ensures
        covered(object_after(ts, i, members), ts, i, Lexeme::ObjectEnd),
        object_after(ts, i, members) is Some ==> ts[i] is Comma || ts[i] is ObjectEnd,
    decreases ts.len() - i, 3int,
{
    if 0 <= i < ts.len() && ts[i] is Comma {
        lemma_object_member_chained(ts, i + 1, members);
    }
}

/// In the tokens of a JSON text every token but the last is followed by one
/// that may follow it; the first starts a value and the last ends one.
pub proof fn lemma_parse_tokens_chained(ts: Seq<Lexeme>)
    requires
        parse_tokens(ts) is Some,
    ensures
        ts.len() > 0,
        starts_value(ts[0]),
        ends_value(ts.last()),
        chained(ts, 0, ts.len() as int),
{
    lemma_value_at_chained(ts, 0);
}

/// A comma directly before a closing bracket or brace fails the parse,
/// wherever it stands.
pub proof fn lemma_trailing_comma_fails(ts: Seq<Lexeme>, k: int)
    requires
        0 <= k,
        k + 1 < ts.len(),
        ts[k] is Comma,
        ts[k + 1] is ArrayEnd || ts[k + 1] is ObjectEnd,
    ensures
        parse_tokens(ts) is None,
{
    if parse_tokens(ts) is Some {
        lemma_parse_tokens_chained(ts);
        assert(may_follow(ts[k], ts[k + 1]));
    }
}

/// Two values with nothing between them fail the parse, wherever they
/// stand: a token that ends a value, other than a key, is never followed by
/// one that starts a value.
pub proof fn lemma_adjacent_values_fail(ts: Seq<Lexeme>, k: int)
    requires
        0 <= k,
        k + 1 < ts.len(),
        ends_value(ts[k]),
        starts_value(ts[k + 1]),
    ensures
        parse_tokens(ts) is None,
{
    if parse_tokens(ts) is Some {
        lemma_parse_tokens_chained(ts);
        assert(may_follow(ts[k], ts[k + 1]));
    }
}

} // verus!

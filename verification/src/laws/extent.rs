//! A value depends on the tokens that it covers and on no others.

use vstd::prelude::*;
use crate::grammar::{
    array_after, array_begin, array_item, lemma_array_after_advances, lemma_array_item_advances,
    lemma_object_after_advances, lemma_object_member_advances, lemma_object_value_advances,
    lemma_value_at_advances, object_after, object_begin, object_member, object_value,
    parse_tokens, value_at,
};
use crate::lexer::Lexeme;
use crate::members::{has_key, insert_entry};
use crate::value::Value;

verus! {

/// Whether `us` holds the tokens of `ts` from `from` up to `to`.
pub open spec fn agree(ts: Seq<Lexeme>, us: Seq<Lexeme>, from: int, to: int) -> bool {
    to <= us.len() && forall|k: int| from <= k < to ==> ts[k] == us[k]
}

/// Whether a result over `ts` is the result over every `us` that holds the
/// tokens that it covers.
pub open spec fn local(
    r: Option<(Value, int)>,
    other: Option<(Value, int)>,
    ts: Seq<Lexeme>,
    us: Seq<Lexeme>,
    i: int,
) -> bool {
    r matches Some((_, end)) ==> (agree(ts, us, i, end) ==> other == r)
}

pub proof fn lemma_value_at_local(ts: Seq<Lexeme>, us: Seq<Lexeme>, i: int)
    ensures
        local(value_at(ts, i), value_at(us, i), ts, us, i),
    decreases ts.len() - i, 0int,
{
    lemma_value_at_advances(ts, i);
    if 0 <= i < ts.len() {
        match ts[i] {
            Lexeme::ArrayBegin => {
                lemma_array_begin_local(ts, us, i + 1);
            },
            Lexeme::ObjectBegin => {
                lemma_object_begin_local(ts, us, i + 1);
            },
            _ => {},
        }
    }
    if let Some((_, end)) = value_at(ts, i) {
        if agree(ts, us, i, end) {
            assert(ts[i] == us[i]);
        }
    }
}

pub proof fn lemma_array_begin_local(ts: Seq<Lexeme>, us: Seq<Lexeme>, i: int)
    requires
        0 <= i,
    ensures
        local(array_begin(ts, i), array_begin(us, i), ts, us, i),
    decreases ts.len() - i, 2int,
{
    if !(0 <= i < ts.len() && ts[i] is ArrayEnd) {
        lemma_array_item_local(ts, us, i, Seq::empty());
        lemma_array_item_advances(ts, i, Seq::empty());
    }
    if let Some((_, end)) = array_begin(ts, i) {
        if agree(ts, us, i, end) {
            assert(ts[i] == us[i]);
        }
    }
}

pub proof fn lemma_array_item_local(ts: Seq<Lexeme>, us: Seq<Lexeme>, i: int, items: Seq<Value>)
    requires
        0 <= i,
    ensures
        local(array_item(ts, i, items), array_item(us, i, items), ts, us, i),
    decreases ts.len() - i, 1int,
{
    lemma_value_at_advances(ts, i);
    lemma_value_at_local(ts, us, i);
    if let Some((item, next)) = value_at(ts, i) {
        lemma_array_after_advances(ts, next, items.push(item));
        lemma_array_after_local(ts, us, next, items.push(item));
    }
}

pub proof fn lemma_array_after_local(ts: Seq<Lexeme>, us: Seq<Lexeme>, i: int, items: Seq<Value>)
    requires
        0 <= i,
    ensures
        local(array_after(ts, i, items), array_after(us, i, items), ts, us, i),
    decreases ts.len() - i, 3int,
{
    if 0 <= i < ts.len() && ts[i] is Comma {
        lemma_array_item_local(ts, us, i + 1, items);
        lemma_array_item_advances(ts, i + 1, items);
    }
    if let Some((_, end)) = array_after(ts, i, items) {
        if agree(ts, us, i, end) {
            assert(ts[i] == us[i]);
        }
    }
}

pub proof fn lemma_object_begin_local(ts: Seq<Lexeme>, us: Seq<Lexeme>, i: int)
    requires
        0 <= i,
    ensures
        local(object_begin(ts, i), object_begin(us, i), ts, us, i),
    decreases ts.len() - i, 2int,
{
    if !(0 <= i < ts.len() && ts[i] is ObjectEnd) {
        lemma_object_member_local(ts, us, i, Seq::empty());
        lemma_object_member_advances(ts, i, Seq::empty());
    }
    if let Some((_, end)) = object_begin(ts, i) {
        if agree(ts, us, i, end) {
            assert(ts[i] == us[i]);
        }
    }
}

pub proof fn lemma_object_member_local(
    ts: Seq<Lexeme>,
    us: Seq<Lexeme>,
    i: int,
    members: Seq<(Seq<char>, Value)>,
)
    requires
        0 <= i,
    ensures
        local(object_member(ts, i, members), object_member(us, i, members), ts, us, i),
    decreases ts.len() - i, 1int,
{
    if 0 <= i < ts.len() {
        if let Lexeme::String(key) = ts[i] {
            if i + 1 < ts.len() && ts[i + 1] is Colon {
                lemma_object_value_local(ts, us, i + 2, members, key);
                lemma_object_value_advances(ts, i + 2, members, key);
            }
        }
    }
    if let Some((_, end)) = object_member(ts, i, members) {
        if agree(ts, us, i, end) {
            assert(ts[i] == us[i]);
            assert(ts[i + 1] == us[i + 1]);
        }
    }
}

pub proof fn lemma_object_value_local(
    ts: Seq<Lexeme>,
    us: Seq<Lexeme>,
    i: int,
    members: Seq<(Seq<char>, Value)>,
    key: Seq<char>,
)
    requires
        0 <= i,
    ensures
        local(
            object_value(ts, i, members, key),
            object_value(us, i, members, key),
            ts,
            us,
            i,
        ),
    decreases ts.len() - i, 1int,
{
    lemma_value_at_advances(ts, i);
    lemma_value_at_local(ts, us, i);
    if !has_key(members, key) {
        if let Some((value, next)) = value_at(ts, i) {
            lemma_object_after_advances(ts, next, insert_entry(members, key, value));
            lemma_object_after_local(ts, us, next, insert_entry(members, key, value));
        }
    }
}

pub proof fn lemma_object_after_local(
    ts: Seq<Lexeme>,
    us: Seq<Lexeme>,
    i: int,
    members: Seq<(Seq<char>, Value)>,
)
    requires
        0 <= i,
    ensures
        local(object_after(ts, i, members), object_after(us, i, members), ts, us, i),
    decreases ts.len() - i, 3int,
{
    if 0 <= i < ts.len() && ts[i] is Comma {
        lemma_object_member_local(ts, us, i + 1, members);
        lemma_object_member_advances(ts, i + 1, members);
    }
    if let Some((_, end)) = object_after(ts, i, members) {
        if agree(ts, us, i, end) {
            assert(ts[i] == us[i]);
        }
    }
}

/// Tokens behind a complete root value fail the parse.
pub proof fn lemma_trailing_tokens_fail(ts: Seq<Lexeme>, extra: Seq<Lexeme>)
    requires
        parse_tokens(ts) is Some,
        extra.len() > 0,
    ensures
        parse_tokens(ts + extra) is None,
{
    lemma_value_at_local(ts, ts + extra, 0);
}

} // verus!

//! The grammar of JSON over tokens, as a specification: which value the
//! tokens from a position on spell, and where that value ends.
//!
//! Each function stands for one position in the grammar and returns the
//! finished value together with the index of the first token behind it, or
//! `None` where the tokens do not fit.

use vstd::prelude::*;
use crate::lexer::{lemma_lex_wf, lex, lexemes_wf, Lexeme};
use crate::members::{has_key, insert_entry, lemma_insert_entry_ascending, lemma_rank_bounds, rank};
use crate::value::{keys_ascending, Value};

verus! {

/// The value that starts at token `i`.
pub open spec fn value_at(ts: Seq<Lexeme>, i: int) -> Option<(Value, int)>
    decreases ts.len() - i, 0int,
{
    if !(0 <= i < ts.len()) {
        None
    } else {
        match ts[i] {
            Lexeme::Null => Some((Value::Null, i + 1)),
            Lexeme::Boolean(b) => Some((Value::Boolean(b), i + 1)),
            Lexeme::Number(text) => Some((Value::Number(text), i + 1)),
            Lexeme::String(text) => Some((Value::String(text), i + 1)),
            Lexeme::ArrayBegin => array_begin(ts, i + 1),
            Lexeme::ObjectBegin => object_begin(ts, i + 1),
            _ => None,
        }
    }
}

/// The array whose `[` stands before token `i`: closed at once, or holding at
/// least one item.
pub open spec fn array_begin(ts: Seq<Lexeme>, i: int) -> Option<(Value, int)>
    decreases ts.len() - i, 2int,
{
    if 0 <= i < ts.len() && ts[i] is ArrayEnd {
        Some((Value::Array(Seq::empty()), i + 1))
    } else {
        array_item(ts, i, Seq::empty())
    }
}

/// The array that holds `items` so far and whose next item starts at token
/// `i`.
pub open spec fn array_item(ts: Seq<Lexeme>, i: int, items: Seq<Value>) -> Option<(Value, int)>
    decreases ts.len() - i, 1int,
{
    match value_at(ts, i) {
        Some((item, next)) => if i < next <= ts.len() {
            array_after(ts, next, items.push(item))
        } else {
            None
        },
        None => None,
    }
}

/// The array that holds `items` so far, the last of which ended before token
/// `i`: a comma and one more item, or the closing `]`.
pub open spec fn array_after(ts: Seq<Lexeme>, i: int, items: Seq<Value>) -> Option<(Value, int)>
    decreases ts.len() - i, 3int,
{
    if !(0 <= i < ts.len()) {
        None
    } else if ts[i] is Comma {
        array_item(ts, i + 1, items)
    } else if ts[i] is ArrayEnd {
        Some((Value::Array(items), i + 1))
    } else {
        None
    }
}

/// The object whose `{` stands before token `i`: closed at once, or holding
/// at least one member.
pub open spec fn object_begin(ts: Seq<Lexeme>, i: int) -> Option<(Value, int)>
    decreases ts.len() - i, 2int,
{
    if 0 <= i < ts.len() && ts[i] is ObjectEnd {
        Some((Value::Object(Seq::empty()), i + 1))
    } else {
        object_member(ts, i, Seq::empty())
    }
}

/// The object that holds `members` so far and whose next member starts at
/// token `i` with its key.
pub open spec fn object_member(
    ts: Seq<Lexeme>,
    i: int,
    members: Seq<(Seq<char>, Value)>,
) -> Option<(Value, int)>
    decreases ts.len() - i, 1int,
{
    if !(0 <= i < ts.len()) {
        None
    } else {
        match ts[i] {
            Lexeme::String(key) => object_colon(ts, i + 1, members, key),
            _ => None,
        }
    }
}

/// The object that holds `members` so far and has read `key`: a colon at
/// token `i`, then the value.
pub open spec fn object_colon(
    ts: Seq<Lexeme>,
    i: int,
    members: Seq<(Seq<char>, Value)>,
    key: Seq<char>,
) -> Option<(Value, int)>
    decreases ts.len() - i, 1int,
{
    if 0 <= i < ts.len() && ts[i] is Colon {
        object_value(ts, i + 1, members, key)
    } else {
        None
    }
}

/// The object that holds `members` so far and has read `key` and its colon:
/// the value starts at token `i`. A key that a member already has ends the
/// parse, whatever follows.
pub open spec fn object_value(
    ts: Seq<Lexeme>,
    i: int,
    members: Seq<(Seq<char>, Value)>,
    key: Seq<char>,
) -> Option<(Value, int)>
    decreases ts.len() - i, 1int,
{
    if has_key(members, key) {
        None
    } else {
        match value_at(ts, i) {
            Some((value, next)) => if i < next <= ts.len() {
                object_after(ts, next, insert_entry(members, key, value))
            } else {
                None
            },
            None => None,
        }
    }
}

/// The object that holds `members` so far, the last of which ended before
/// token `i`: a comma and one more member, or the closing `}`.
pub open spec fn object_after(
    ts: Seq<Lexeme>,
    i: int,
    members: Seq<(Seq<char>, Value)>,
) -> Option<(Value, int)>
    decreases ts.len() - i, 3int,
{
    if !(0 <= i < ts.len()) {
        None
    } else if ts[i] is Comma {
        object_member(ts, i + 1, members)
    } else if ts[i] is ObjectEnd {
        Some((Value::Object(members), i + 1))
    } else {
        None
    }
}

/// The value that all of `ts` spells: one value, and no token behind it.
pub open spec fn parse_tokens(ts: Seq<Lexeme>) -> Option<Value> {
    match value_at(ts, 0) {
        Some((value, end)) => if end == ts.len() {
            Some(value)
        } else {
            None
        },
        None => None,
    }
}

/// The value that the text `s` spells.
pub open spec fn parse_text(s: Seq<u8>) -> Option<Value> {
    match lex(s) {
        Some(ts) => parse_tokens(ts),
        None => None,
    }
}

/// A key that the object already holds fails the parse there and then,
/// whatever value stands behind it and whatever value the object holds under
/// it.
pub proof fn lemma_duplicate_key_fails(
    ts: Seq<Lexeme>,
    i: int,
    members: Seq<(Seq<char>, Value)>,
    key: Seq<char>,
)
    requires
        0 <= i < ts.len(),
        ts[i] == Lexeme::String(key),
        has_key(members, key),
    ensures
        object_member(ts, i, members) is None,
{
}

/// Whether a result, where there is one, ends behind `i` and inside `ts`.
pub open spec fn ends_behind(r: Option<(Value, int)>, ts: Seq<Lexeme>, i: int) -> bool {
    r matches Some((_, end)) ==> i < end <= ts.len()
}

/// A value takes at least one token and ends inside the sequence.
pub proof fn lemma_value_at_advances(ts: Seq<Lexeme>, i: int)
    ensures
        ends_behind(value_at(ts, i), ts, i),
    decreases ts.len() - i, 0int,
{
    if 0 <= i < ts.len() {
        match ts[i] {
            Lexeme::ArrayBegin => {
                lemma_array_begin_advances(ts, i + 1);
            },
            Lexeme::ObjectBegin => {
                lemma_object_begin_advances(ts, i + 1);
            },
            _ => {},
        }
    }
}

pub proof fn lemma_array_begin_advances(ts: Seq<Lexeme>, i: int)
    requires
        0 <= i,
    ensures
        ends_behind(array_begin(ts, i), ts, i),
    decreases ts.len() - i, 2int,
{
    if !(0 <= i < ts.len() && ts[i] is ArrayEnd) {
        lemma_array_item_advances(ts, i, Seq::empty());
    }
}

pub proof fn lemma_array_item_advances(ts: Seq<Lexeme>, i: int, items: Seq<Value>)
    requires
        0 <= i,
    ensures
        ends_behind(array_item(ts, i, items), ts, i),
    decreases ts.len() - i, 1int,
{
    lemma_value_at_advances(ts, i);
    if let Some((item, next)) = value_at(ts, i) {
        lemma_array_after_advances(ts, next, items.push(item));
    }
}

pub proof fn lemma_array_after_advances(ts: Seq<Lexeme>, i: int, items: Seq<Value>)
    requires
        0 <= i,
    ensures
        ends_behind(array_after(ts, i, items), ts, i),
    decreases ts.len() - i, 3int,
{
    if 0 <= i < ts.len() && ts[i] is Comma {
        lemma_array_item_advances(ts, i + 1, items);
    }
}

pub proof fn lemma_object_begin_advances(ts: Seq<Lexeme>, i: int)
    requires
        0 <= i,
    ensures
        ends_behind(object_begin(ts, i), ts, i),
    decreases ts.len() - i, 2int,
{
    if !(0 <= i < ts.len() && ts[i] is ObjectEnd) {
        lemma_object_member_advances(ts, i, Seq::empty());
    }
}

pub proof fn lemma_object_member_advances(
    ts: Seq<Lexeme>,
    i: int,
    members: Seq<(Seq<char>, Value)>,
)
    requires
        0 <= i,
    ensures
        ends_behind(object_member(ts, i, members), ts, i),
    decreases ts.len() - i, 1int,
{
    if 0 <= i < ts.len() {
        if let Lexeme::String(key) = ts[i] {
            if i + 1 < ts.len() && ts[i + 1] is Colon {
                lemma_object_value_advances(ts, i + 2, members, key);
            }
        }
    }
}

pub proof fn lemma_object_value_advances(
    ts: Seq<Lexeme>,
    i: int,
    members: Seq<(Seq<char>, Value)>,
    key: Seq<char>,
)
    requires
        0 <= i,
    ensures
        ends_behind(object_value(ts, i, members, key), ts, i),
    decreases ts.len() - i, 1int,
{
    lemma_value_at_advances(ts, i);
    if !has_key(members, key) {
        if let Some((value, next)) = value_at(ts, i) {
            lemma_object_after_advances(ts, next, insert_entry(members, key, value));
        }
    }
}

pub proof fn lemma_object_after_advances(
    ts: Seq<Lexeme>,
    i: int,
    members: Seq<(Seq<char>, Value)>,
)
    requires
        0 <= i,
    ensures
        ends_behind(object_after(ts, i, members), ts, i),
    decreases ts.len() - i, 3int,
{
    if 0 <= i < ts.len() && ts[i] is Comma {
        lemma_object_member_advances(ts, i + 1, members);
    }
}

/// Whether a result, where there is one, is a well-formed value.
pub open spec fn result_wf(r: Option<(Value, int)>) -> bool {
    r matches Some((value, _)) ==> value.wf()
}

pub open spec fn items_wf(items: Seq<Value>) -> bool {
    forall|k: int| 0 <= k < items.len() ==> (#[trigger] items[k]).wf()
}

pub open spec fn members_wf(members: Seq<(Seq<char>, Value)>) -> bool {
    keys_ascending(members) && forall|k: int|
        0 <= k < members.len() ==> (#[trigger] members[k]).1.wf()
}

/// A well-formed value under a new key leaves the members well-formed.
pub proof fn lemma_insert_entry_wf(members: Seq<(Seq<char>, Value)>, key: Seq<char>, value: Value)
    requires
        members_wf(members),
        !has_key(members, key),
        value.wf(),
    ensures
        members_wf(insert_entry(members, key, value)),
{
    lemma_insert_entry_ascending(members, key, value);
    lemma_rank_bounds(members, key);
    let r = rank(members, key);
    let after = insert_entry(members, key, value);
    assert forall|k: int| 0 <= k < after.len() implies (#[trigger] after[k]).1.wf() by {
        if k < r {
            assert(after[k] == members[k]);
        } else if k > r {
            assert(after[k] == members[k - 1]);
        }
    }
}

/// The value that well-formed tokens spell is well-formed.
pub proof fn lemma_value_at_wf(ts: Seq<Lexeme>, i: int)
    requires
        lexemes_wf(ts),
    ensures
        result_wf(value_at(ts, i)),
    decreases ts.len() - i, 0int,
{
    if 0 <= i < ts.len() {
        match ts[i] {
            Lexeme::ArrayBegin => {
                lemma_array_begin_wf(ts, i + 1);
            },
            Lexeme::ObjectBegin => {
                lemma_object_begin_wf(ts, i + 1);
            },
            _ => {},
        }
    }
}

pub proof fn lemma_array_begin_wf(ts: Seq<Lexeme>, i: int)
    requires
        lexemes_wf(ts),
    ensures
        result_wf(array_begin(ts, i)),
    decreases ts.len() - i, 2int,
{
    if !(0 <= i < ts.len() && ts[i] is ArrayEnd) {
        lemma_array_item_wf(ts, i, Seq::empty());
    }
}

pub proof fn lemma_array_item_wf(ts: Seq<Lexeme>, i: int, items: Seq<Value>)
    requires
        lexemes_wf(ts),
        items_wf(items),
    ensures
        result_wf(array_item(ts, i, items)),
    decreases ts.len() - i, 1int,
{
    lemma_value_at_wf(ts, i);
    if let Some((item, next)) = value_at(ts, i) {
        if i < next <= ts.len() {
            lemma_array_after_wf(ts, next, items.push(item));
        }
    }
}

pub proof fn lemma_array_after_wf(ts: Seq<Lexeme>, i: int, items: Seq<Value>)
    requires
        lexemes_wf(ts),
        items_wf(items),
    ensures
        result_wf(array_after(ts, i, items)),
    decreases ts.len() - i, 3int,
{
    if 0 <= i < ts.len() && ts[i] is Comma {
        lemma_array_item_wf(ts, i + 1, items);
    }
}

pub proof fn lemma_object_begin_wf(ts: Seq<Lexeme>, i: int)
    requires
        lexemes_wf(ts),
    ensures
        result_wf(object_begin(ts, i)),
    decreases ts.len() - i, 2int,
{
    if !(0 <= i < ts.len() && ts[i] is ObjectEnd) {
        lemma_object_member_wf(ts, i, Seq::empty());
    }
}

pub proof fn lemma_object_member_wf(ts: Seq<Lexeme>, i: int, members: Seq<(Seq<char>, Value)>)
    requires
        lexemes_wf(ts),
        members_wf(members),
    ensures
        result_wf(object_member(ts, i, members)),
    decreases ts.len() - i, 1int,
{
    if 0 <= i < ts.len() {
        if let Lexeme::String(key) = ts[i] {
            if i + 1 < ts.len() && ts[i + 1] is Colon {
                lemma_object_value_wf(ts, i + 2, members, key);
            }
        }
    }
}

pub proof fn lemma_object_value_wf(
    ts: Seq<Lexeme>,
    i: int,
    members: Seq<(Seq<char>, Value)>,
    key: Seq<char>,
)
    requires
        lexemes_wf(ts),
        members_wf(members),
    ensures
        result_wf(object_value(ts, i, members, key)),
    decreases ts.len() - i, 1int,
{
    lemma_value_at_wf(ts, i);
    if !has_key(members, key) {
        if let Some((value, next)) = value_at(ts, i) {
            if i < next <= ts.len() {
                lemma_insert_entry_wf(members, key, value);
                lemma_object_after_wf(ts, next, insert_entry(members, key, value));
            }
        }
    }
}

pub proof fn lemma_object_after_wf(ts: Seq<Lexeme>, i: int, members: Seq<(Seq<char>, Value)>)
    requires
        lexemes_wf(ts),
        members_wf(members),
    ensures
        result_wf(object_after(ts, i, members)),
    decreases ts.len() - i, 3int,
{
    if 0 <= i < ts.len() && ts[i] is Comma {
        lemma_object_member_wf(ts, i + 1, members);
    }
}

/// Every tree that well-formed tokens spell is well-formed.
pub proof fn lemma_parse_tokens_wf(ts: Seq<Lexeme>)
    requires
        lexemes_wf(ts),
        parse_tokens(ts) is Some,
    ensures
        parse_tokens(ts).unwrap().wf(),
{
    lemma_value_at_wf(ts, 0);
}

/// Every tree that a text spells is well-formed: the keys of each object
/// ascend, so none occurs twice, and each number is a number literal.
pub proof fn lemma_parse_text_wf(s: Seq<u8>)
    requires
        parse_text(s) is Some,
    ensures
        parse_text(s).unwrap().wf(),
{
    lemma_lex_wf(s);
    lemma_parse_tokens_wf(lex(s).unwrap());
}

} // verus!

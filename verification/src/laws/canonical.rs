//! The tokens that spell a tree, and the tree that those tokens parse to:
//! the same tree with the members of every object put in key order, or
//! nothing where an object holds a key twice.

use vstd::prelude::*;
use crate::laws::follow::{chained, ends_value, may_follow, starts_value};
use crate::grammar::{
    array_after, array_begin, array_item, items_wf, lemma_value_at_advances, members_wf,
    object_after, object_begin, object_colon, object_member, object_value, parse_tokens, value_at,
};
use crate::keys::{key_lt, lemma_key_lt_asymmetric};
use crate::lexer::{lexeme_wf, lexemes_wf, Lexeme};
use crate::members::{has_key, insert_entry, lemma_insert_entry_has_key, lemma_rank_is};
use crate::value::Value;

verus! {

/// The tokens that spell `value`, the members of each object in the order in
/// which `value` holds them.
pub open spec fn tokens_of(value: Value) -> Seq<Lexeme>
    decreases value, 0int,
{
    match value {
        Value::Null => seq![Lexeme::Null],
        Value::Boolean(b) => seq![Lexeme::Boolean(b)],
        Value::Number(text) => seq![Lexeme::Number(text)],
        Value::String(text) => seq![Lexeme::String(text)],
        Value::Array(items) => if items.len() == 0 {
            seq![Lexeme::ArrayBegin, Lexeme::ArrayEnd]
        } else {
            seq![Lexeme::ArrayBegin] + tokens_of(items[0]) + rest_of_array(items, 1)
        },
        Value::Object(members) => if members.len() == 0 {
            seq![Lexeme::ObjectBegin, Lexeme::ObjectEnd]
        } else {
            seq![Lexeme::ObjectBegin, Lexeme::String(members[0].0), Lexeme::Colon] + tokens_of(
                members[0].1,
            ) + rest_of_object(members, 1)
        },
    }
}

/// The tokens that spell an array behind its item `k - 1`: a comma and an
/// item for each item from `k` on, and the closing bracket.
pub open spec fn rest_of_array(items: Seq<Value>, k: int) -> Seq<Lexeme>
    decreases items, items.len() - k,
{
    if 0 <= k < items.len() {
        seq![Lexeme::Comma] + tokens_of(items[k]) + rest_of_array(items, k + 1)
    } else {
        seq![Lexeme::ArrayEnd]
    }
}

/// The tokens that spell an object behind its member `k - 1`: a comma, a
/// key, a colon and a value for each member from `k` on, and the closing
/// brace.
pub open spec fn rest_of_object(members: Seq<(Seq<char>, Value)>, k: int) -> Seq<Lexeme>
    decreases members, members.len() - k,
{
    if 0 <= k < members.len() {
        seq![Lexeme::Comma, Lexeme::String(members[k].0), Lexeme::Colon] + tokens_of(
            members[k].1,
        ) + rest_of_object(members, k + 1)
    } else {
        seq![Lexeme::ObjectEnd]
    }
}

/// `value` with the members of every object in key order, or `None` where an
/// object holds a key twice.
pub open spec fn canonical(value: Value) -> Option<Value>
    decreases value, 0int,
{
    match value {
        Value::Array(items) => canonical_items(items, 0, Seq::empty()),
        Value::Object(members) => canonical_members(members, 0, Seq::empty()),
        _ => Some(value),
    }
}

/// The array of `done` and then the items of `items` from `k` on, each made
/// canonical.
pub open spec fn canonical_items(items: Seq<Value>, k: int, done: Seq<Value>) -> Option<Value>
    decreases items, items.len() - k,
{
    if 0 <= k < items.len() {
        match canonical(items[k]) {
            Some(item) => canonical_items(items, k + 1, done.push(item)),
            None => None,
        }
    } else {
        Some(Value::Array(done))
    }
}

/// The object of `done` and then the members of `members` from `k` on, each
/// value made canonical and each member put where its key belongs.
pub open spec fn canonical_members(
    members: Seq<(Seq<char>, Value)>,
    k: int,
    done: Seq<(Seq<char>, Value)>,
) -> Option<Value>
    decreases members, members.len() - k,
{
    if 0 <= k < members.len() {
        if has_key(done, members[k].0) {
            None
        } else {
            match canonical(members[k].1) {
                Some(value) => canonical_members(
                    members,
                    k + 1,
                    insert_entry(done, members[k].0, value),
                ),
                None => None,
            }
        }
    } else {
        Some(Value::Object(done))
    }
}

/// Whether an object somewhere in `value` holds a key twice.
pub open spec fn repeats_key(value: Value) -> bool
    decreases value,
{
    match value {
        Value::Array(items) => exists|i: int|
            0 <= i < items.len() && repeats_key(#[trigger] items[i]),
        Value::Object(members) => {
            ||| exists|i: int, j: int|
                #![trigger members[i], members[j]]
                0 <= i < j < members.len() && members[i].0 == members[j].0
            ||| exists|i: int| 0 <= i < members.len() && repeats_key((#[trigger] members[i]).1)
        },
        _ => false,
    }
}

/// Whether `ts` holds the tokens `part` from index `at` on.
pub open spec fn holds_tokens(ts: Seq<Lexeme>, at: int, part: Seq<Lexeme>) -> bool {
    &&& 0 <= at
    &&& at + part.len() <= ts.len()
    &&& forall|k: int| 0 <= k < part.len() ==> ts[at + k] == #[trigger] part[k]
}

/// A value, where there is one, with the index at which it ends.
pub open spec fn placed(value: Option<Value>, end: int) -> Option<(Value, int)> {
    match value {
        Some(value) => Some((value, end)),
        None => None,
    }
}

proof fn lemma_holds_parts(ts: Seq<Lexeme>, at: int, a: Seq<Lexeme>, b: Seq<Lexeme>)
    requires
        holds_tokens(ts, at, a + b),
    ensures
        holds_tokens(ts, at, a),
        holds_tokens(ts, at + a.len(), b),
{
    assert forall|k: int| 0 <= k < a.len() implies ts[at + k] == #[trigger] a[k] by {
        assert((a + b)[k] == a[k]);
    }
    assert forall|k: int| 0 <= k < b.len() implies ts[at + a.len() + k] == #[trigger] b[k] by {
        assert((a + b)[a.len() + k] == b[k]);
        assert(ts[at + (a.len() + k)] == (a + b)[a.len() + k]);
    }
}

/// The tokens of a value start with a token that starts a value and end
/// with one that ends a value.
pub proof fn lemma_tokens_of_ends(value: Value)
    ensures
        tokens_of(value).len() > 0,
        starts_value(tokens_of(value)[0]),
        ends_value(tokens_of(value).last()),
{
    match value {
        Value::Array(items) => {
            if items.len() > 0 {
                lemma_rest_of_array_ends(items, 1);
            }
        },
        Value::Object(members) => {
            if members.len() > 0 {
                lemma_rest_of_object_ends(members, 1);
            }
        },
        _ => {},
    }
}

proof fn lemma_rest_of_array_ends(items: Seq<Value>, k: int)
    ensures
        rest_of_array(items, k).len() > 0,
        rest_of_array(items, k)[0] == if 0 <= k < items.len() {
            Lexeme::Comma
        } else {
            Lexeme::ArrayEnd
        },
        rest_of_array(items, k).last() == Lexeme::ArrayEnd,
    decreases items.len() - k,
{
    if 0 <= k < items.len() {
        lemma_rest_of_array_ends(items, k + 1);
    }
}

proof fn lemma_rest_of_object_ends(members: Seq<(Seq<char>, Value)>, k: int)
    ensures
        rest_of_object(members, k).len() > 0,
        rest_of_object(members, k)[0] == if 0 <= k < members.len() {
            Lexeme::Comma
        } else {
            Lexeme::ObjectEnd
        },
        rest_of_object(members, k).last() == Lexeme::ObjectEnd,
    decreases members.len() - k,
{
    if 0 <= k < members.len() {
        lemma_rest_of_object_ends(members, k + 1);
    }
}

/// The tokens that spell a value parse, wherever they stand, to the value
/// made canonical, or to nothing where that is nothing.
pub proof fn lemma_value_at_of_tokens(ts: Seq<Lexeme>, p: int, value: Value)
    requires
        holds_tokens(ts, p, tokens_of(value)),
    ensures
        value_at(ts, p) == placed(canonical(value), p + tokens_of(value).len()),
    decreases value, 0int,
{
    let part = tokens_of(value);
    assert(ts[p + 0] == part[0]);
    match value {
        Value::Array(items) => {
            if items.len() == 0 {
                assert(ts[p + 1] == part[1]);
            } else {
                let head = seq![Lexeme::ArrayBegin];
                let first = tokens_of(items[0]);
                lemma_holds_parts(ts, p, head + first, rest_of_array(items, 1));
                lemma_holds_parts(ts, p, head, first);
                lemma_value_at_of_tokens(ts, p + 1, items[0]);
                lemma_value_at_advances(ts, p + 1);
                lemma_tokens_of_ends(items[0]);
                assert(ts[p + 1 + 0] == first[0]);
                assert(array_begin(ts, p + 1) == array_item(ts, p + 1, Seq::empty()));
                assert(part.len() == 1 + first.len() + rest_of_array(items, 1).len());
                if let Some(item) = canonical(items[0]) {
                    lemma_array_after_of_tokens(
                        ts,
                        p + 1 + first.len(),
                        items,
                        1,
                        Seq::empty().push(item),
                    );
                }
                assert(value_at(ts, p) == array_begin(ts, p + 1));
            }
        },
        Value::Object(members) => {
            if members.len() == 0 {
                assert(ts[p + 1] == part[1]);
            } else {
                let key = members[0].0;
                let head = seq![Lexeme::ObjectBegin, Lexeme::String(key), Lexeme::Colon];
                let first = tokens_of(members[0].1);
                lemma_holds_parts(ts, p, head + first, rest_of_object(members, 1));
                lemma_holds_parts(ts, p, head, first);
                assert(ts[p + 0] == head[0]);
                assert(ts[p + 1] == head[1]);
                assert(ts[p + 2] == head[2]);
                lemma_value_at_of_tokens(ts, p + 3, members[0].1);
                lemma_value_at_advances(ts, p + 3);
                let none = Seq::<(Seq<char>, Value)>::empty();
                assert(!has_key(none, key));
                assert(part.len() == 3 + first.len() + rest_of_object(members, 1).len());
                if let Some(member) = canonical(members[0].1) {
                    lemma_object_after_of_tokens(
                        ts,
                        p + 3 + first.len(),
                        members,
                        1,
                        insert_entry(none, key, member),
                    );
                }
                let expected = placed(canonical(value), p + part.len());
                assert(object_value(ts, p + 3, none, key) == expected);
                assert(object_colon(ts, p + 2, none, key) == expected);
                assert(object_member(ts, p + 1, none) == expected);
                assert(object_begin(ts, p + 1) == expected);
                assert(value_at(ts, p) == expected);
            }
        },
        _ => {
            assert(value_at(ts, p) == Some((value, p + 1)));
        },
    }
}

proof fn lemma_array_after_of_tokens(
    ts: Seq<Lexeme>,
    q: int,
    items: Seq<Value>,
    k: int,
    done: Seq<Value>,
)
    requires
        1 <= k <= items.len(),
        holds_tokens(ts, q, rest_of_array(items, k)),
    ensures
        array_after(ts, q, done) == placed(
            canonical_items(items, k, done),
            q + rest_of_array(items, k).len(),
        ),
    decreases items, items.len() - k,
{
    let part = rest_of_array(items, k);
    assert(ts[q + 0] == part[0]);
    if k < items.len() {
        let head = seq![Lexeme::Comma];
        let item = tokens_of(items[k]);
        lemma_holds_parts(ts, q, head + item, rest_of_array(items, k + 1));
        lemma_holds_parts(ts, q, head, item);
        lemma_value_at_of_tokens(ts, q + 1, items[k]);
        lemma_value_at_advances(ts, q + 1);
        assert(part.len() == 1 + item.len() + rest_of_array(items, k + 1).len());
        if let Some(made) = canonical(items[k]) {
            lemma_array_after_of_tokens(ts, q + 1 + item.len(), items, k + 1, done.push(made));
        }
        assert(array_after(ts, q, done) == array_item(ts, q + 1, done));
    }
}

proof fn lemma_object_after_of_tokens(
    ts: Seq<Lexeme>,
    q: int,
    members: Seq<(Seq<char>, Value)>,
    k: int,
    done: Seq<(Seq<char>, Value)>,
)
    requires
        1 <= k <= members.len(),
        holds_tokens(ts, q, rest_of_object(members, k)),
    ensures
        object_after(ts, q, done) == placed(
            canonical_members(members, k, done),
            q + rest_of_object(members, k).len(),
        ),
    decreases members, members.len() - k,
{
    let part = rest_of_object(members, k);
    assert(ts[q + 0] == part[0]);
    if k < members.len() {
        let key = members[k].0;
        let head = seq![Lexeme::Comma, Lexeme::String(key), Lexeme::Colon];
        let value = tokens_of(members[k].1);
        lemma_holds_parts(ts, q, head + value, rest_of_object(members, k + 1));
        lemma_holds_parts(ts, q, head, value);
        assert(ts[q + 0] == head[0]);
        assert(ts[q + 1] == head[1]);
        assert(ts[q + 2] == head[2]);
        lemma_value_at_of_tokens(ts, q + 3, members[k].1);
        lemma_value_at_advances(ts, q + 3);
        assert(part.len() == 3 + value.len() + rest_of_object(members, k + 1).len());
        if !has_key(done, key) {
            if let Some(made) = canonical(members[k].1) {
                lemma_object_after_of_tokens(
                    ts,
                    q + 3 + value.len(),
                    members,
                    k + 1,
                    insert_entry(done, key, made),
                );
            }
        }
        let expected = placed(canonical_members(members, k, done), q + part.len());
        assert(object_value(ts, q + 3, done, key) == expected);
        assert(object_colon(ts, q + 2, done, key) == expected);
        assert(object_member(ts, q + 1, done) == expected);
        assert(object_after(ts, q, done) == expected);
    }
}

/// The tokens that spell a value parse to the value made canonical.
pub proof fn lemma_parse_tokens_of(value: Value)
    ensures
        parse_tokens(tokens_of(value)) == canonical(value),
{
    let ts = tokens_of(value);
    assert(holds_tokens(ts, 0, ts));
    lemma_value_at_of_tokens(ts, 0, value);
}

/// A well-formed value is canonical.
pub proof fn lemma_canonical_of_wf(value: Value)
    requires
        value.wf(),
    ensures
        canonical(value) == Some(value),
    decreases value, 0int,
{
    match value {
        Value::Array(items) => {
            assert(items.take(0) =~= Seq::<Value>::empty());
            lemma_canonical_items_of_wf(items, 0);
        },
        Value::Object(members) => {
            assert(members.take(0) =~= Seq::<(Seq<char>, Value)>::empty());
            lemma_canonical_members_of_wf(members, 0);
        },
        _ => {},
    }
}

proof fn lemma_canonical_items_of_wf(items: Seq<Value>, k: int)
    requires
        0 <= k <= items.len(),
        items_wf(items),
    ensures
        canonical_items(items, k, items.take(k)) == Some(Value::Array(items)),
    decreases items, items.len() - k,
{
    if k < items.len() {
        lemma_canonical_of_wf(items[k]);
        assert(items.take(k).push(items[k]) =~= items.take(k + 1));
        lemma_canonical_items_of_wf(items, k + 1);
    } else {
        assert(items.take(k) =~= items);
    }
}

proof fn lemma_canonical_members_of_wf(members: Seq<(Seq<char>, Value)>, k: int)
    requires
        0 <= k <= members.len(),
        members_wf(members),
    ensures
        canonical_members(members, k, members.take(k)) == Some(Value::Object(members)),
    decreases members, members.len() - k,
{
    if k < members.len() {
        let key = members[k].0;
        let before = members.take(k);
        lemma_canonical_of_wf(members[k].1);
        assert forall|j: int| 0 <= j < before.len() implies key_lt(
            (#[trigger] before[j]).0,
            key,
        ) by {
            assert(key_lt(members[j].0, members[k].0));
        }
        assert(!has_key(before, key)) by {
            if has_key(before, key) {
                lemma_key_lt_asymmetric(key, key);
            }
        }
        lemma_rank_is(before, key, k);
        assert(insert_entry(before, key, members[k].1) =~= members.take(k + 1));
        lemma_canonical_members_of_wf(members, k + 1);
    } else {
        assert(members.take(k) =~= members);
    }
}

/// Where one item is nothing when made canonical, so is the array.
proof fn lemma_canonical_items_fail(items: Seq<Value>, k: int, done: Seq<Value>, bad: int)
    requires
        0 <= k <= bad < items.len(),
        canonical(items[bad]) is None,
    ensures
        canonical_items(items, k, done) is None,
    decreases items.len() - k,
{
    if k < bad {
        if let Some(item) = canonical(items[k]) {
            lemma_canonical_items_fail(items, k + 1, done.push(item), bad);
        }
    }
}

/// Where the value of one member is nothing when made canonical, or the key
/// of one member is the key of an earlier one, the object is nothing when
/// made canonical.
proof fn lemma_canonical_members_fail(
    members: Seq<(Seq<char>, Value)>,
    k: int,
    done: Seq<(Seq<char>, Value)>,
    bad: int,
)
    requires
        0 <= k <= bad < members.len(),
        canonical(members[bad].1) is None || has_key(done, members[bad].0) || exists|i: int|
            k <= i < bad && (#[trigger] members[i]).0 == members[bad].0,
    ensures
        canonical_members(members, k, done) is None,
    decreases members.len() - k,
{
    if k < bad {
        if !has_key(done, members[k].0) {
            if let Some(value) = canonical(members[k].1) {
                let next = insert_entry(done, members[k].0, value);
                lemma_insert_entry_has_key(done, members[k].0, value, members[bad].0);
                if !(canonical(members[bad].1) is None) && !has_key(next, members[bad].0) {
                    let i = choose|i: int|
                        k <= i < bad && (#[trigger] members[i]).0 == members[bad].0;
                    assert(k + 1 <= i);
                }
                lemma_canonical_members_fail(members, k + 1, next, bad);
            }
        }
    }
}

/// A value in which an object holds a key twice is nothing when made
/// canonical, however deep the object lies and whatever the values under the
/// two keys are.
pub proof fn lemma_repeated_key_is_not_canonical(value: Value)
    requires
        repeats_key(value),
    ensures
        canonical(value) is None,
    decreases value,
{
    match value {
        Value::Array(items) => {
            let bad = choose|i: int| 0 <= i < items.len() && repeats_key(#[trigger] items[i]);
            lemma_repeated_key_is_not_canonical(items[bad]);
            lemma_canonical_items_fail(items, 0, Seq::empty(), bad);
        },
        Value::Object(members) => {
            if exists|i: int, j: int|
                #![trigger members[i], members[j]]
                0 <= i < j < members.len() && members[i].0 == members[j].0 {
                let (i, j) = choose|i: int, j: int|
                    #![trigger members[i], members[j]]
                    0 <= i < j < members.len() && members[i].0 == members[j].0;
                assert(0 <= i < j && members[i].0 == members[j].0);
                lemma_canonical_members_fail(members, 0, Seq::empty(), j);
            } else {
                let bad = choose|i: int|
                    0 <= i < members.len() && repeats_key((#[trigger] members[i]).1);
                lemma_repeated_key_is_not_canonical(members[bad].1);
                lemma_canonical_members_fail(members, 0, Seq::empty(), bad);
            }
        },
        _ => {},
    }
}

proof fn lemma_lexemes_wf_parts(a: Seq<Lexeme>, b: Seq<Lexeme>)
    requires
        lexemes_wf(a),
        lexemes_wf(b),
    ensures
        lexemes_wf(a + b),
{
    assert forall|i: int| 0 <= i < (a + b).len() implies lexeme_wf(#[trigger] (a + b)[i]) by {
        if i < a.len() {
            assert((a + b)[i] == a[i]);
        } else {
            assert((a + b)[i] == b[i - a.len()]);
        }
    }
}

/// Whether the numbers in each item are number literals.
pub open spec fn items_numeric(items: Seq<Value>) -> bool {
    forall|i: int| 0 <= i < items.len() ==> (#[trigger] items[i]).numeric()
}

/// Whether the numbers in each member's value are number literals.
pub open spec fn members_numeric(members: Seq<(Seq<char>, Value)>) -> bool {
    forall|i: int| 0 <= i < members.len() ==> (#[trigger] members[i]).1.numeric()
}

/// The numbers among the tokens of a tree whose numbers are number literals
/// carry number texts.
pub proof fn lemma_tokens_of_wf(value: Value)
    requires
        value.numeric(),
    ensures
        lexemes_wf(tokens_of(value)),
    decreases value, 0int,
{
    match value {
        Value::Array(items) => {
            if items.len() > 0 {
                lemma_tokens_of_wf(items[0]);
                lemma_rest_of_array_wf(items, 1);
                lemma_lexemes_wf_parts(seq![Lexeme::ArrayBegin], tokens_of(items[0]));
                lemma_lexemes_wf_parts(
                    seq![Lexeme::ArrayBegin] + tokens_of(items[0]),
                    rest_of_array(items, 1),
                );
            }
        },
        Value::Object(members) => {
            if members.len() > 0 {
                let head = seq![
                    Lexeme::ObjectBegin,
                    Lexeme::String(members[0].0),
                    Lexeme::Colon,
                ];
                lemma_tokens_of_wf(members[0].1);
                lemma_rest_of_object_wf(members, 1);
                lemma_lexemes_wf_parts(head, tokens_of(members[0].1));
                lemma_lexemes_wf_parts(head + tokens_of(members[0].1), rest_of_object(members, 1));
            }
        },
        _ => {},
    }
}

proof fn lemma_rest_of_array_wf(items: Seq<Value>, k: int)
    requires
        items_numeric(items),
    ensures
        lexemes_wf(rest_of_array(items, k)),
    decreases items, items.len() - k,
{
    if 0 <= k < items.len() {
        lemma_tokens_of_wf(items[k]);
        lemma_rest_of_array_wf(items, k + 1);
        lemma_lexemes_wf_parts(seq![Lexeme::Comma], tokens_of(items[k]));
        lemma_lexemes_wf_parts(
            seq![Lexeme::Comma] + tokens_of(items[k]),
            rest_of_array(items, k + 1),
        );
    }
}

proof fn lemma_rest_of_object_wf(members: Seq<(Seq<char>, Value)>, k: int)
    requires
        members_numeric(members),
    ensures
        lexemes_wf(rest_of_object(members, k)),
    decreases members, members.len() - k,
{
    if 0 <= k < members.len() {
        let head = seq![Lexeme::Comma, Lexeme::String(members[k].0), Lexeme::Colon];
        lemma_tokens_of_wf(members[k].1);
        lemma_rest_of_object_wf(members, k + 1);
        lemma_lexemes_wf_parts(head, tokens_of(members[k].1));
        lemma_lexemes_wf_parts(head + tokens_of(members[k].1), rest_of_object(members, k + 1));
    }
}

/// Two chained runs of tokens, the second of which may follow the first, are
/// chained when put together.
proof fn lemma_chained_parts(a: Seq<Lexeme>, b: Seq<Lexeme>)
    requires
        a.len() > 0,
        b.len() > 0,
        chained(a, 0, a.len() as int),
        chained(b, 0, b.len() as int),
        may_follow(a.last(), b[0]),
    ensures
        chained(a + b, 0, (a + b).len() as int),
        (a + b)[0] == a[0],
        (a + b).last() == b.last(),
{
    let ab = a + b;
    assert forall|k: int| 0 <= k && k + 1 < ab.len() implies may_follow(
        #[trigger] ab[k],
        ab[k + 1],
    ) by {
        if k + 1 < a.len() {
            assert(ab[k] == a[k] && ab[k + 1] == a[k + 1]);
        } else if k + 1 == a.len() {
            assert(ab[k] == a.last() && ab[k + 1] == b[0]);
        } else {
            assert(ab[k] == b[k - a.len()] && ab[k + 1] == b[k - a.len() + 1]);
            assert(may_follow(b[k - a.len()], b[k - a.len() + 1]));
        }
    }
}

/// In the tokens of a value every token but the last is followed by one
/// that may follow it.
pub proof fn lemma_tokens_of_chained(value: Value)
    ensures
        chained(tokens_of(value), 0, tokens_of(value).len() as int),
    decreases value, 0int,
{
    match value {
        Value::Array(items) => {
            if items.len() > 0 {
                let head = seq![Lexeme::ArrayBegin];
                lemma_tokens_of_chained(items[0]);
                lemma_tokens_of_ends(items[0]);
                lemma_rest_of_array_chained(items, 1);
                lemma_rest_of_array_ends(items, 1);
                lemma_chained_parts(head, tokens_of(items[0]));
                lemma_chained_parts(head + tokens_of(items[0]), rest_of_array(items, 1));
            }
        },
        Value::Object(members) => {
            if members.len() > 0 {
                let head = seq![
                    Lexeme::ObjectBegin,
                    Lexeme::String(members[0].0),
                    Lexeme::Colon,
                ];
                lemma_tokens_of_chained(members[0].1);
                lemma_tokens_of_ends(members[0].1);
                lemma_rest_of_object_chained(members, 1);
                lemma_rest_of_object_ends(members, 1);
                lemma_chained_parts(head, tokens_of(members[0].1));
                lemma_chained_parts(head + tokens_of(members[0].1), rest_of_object(members, 1));
            }
        },
        _ => {},
    }
}

proof fn lemma_rest_of_array_chained(items: Seq<Value>, k: int)
    ensures
        chained(rest_of_array(items, k), 0, rest_of_array(items, k).len() as int),
    decreases items, items.len() - k,
{
    if 0 <= k < items.len() {
        let head = seq![Lexeme::Comma];
        lemma_tokens_of_chained(items[k]);
        lemma_tokens_of_ends(items[k]);
        lemma_rest_of_array_chained(items, k + 1);
        lemma_rest_of_array_ends(items, k + 1);
        lemma_chained_parts(head, tokens_of(items[k]));
        lemma_chained_parts(head + tokens_of(items[k]), rest_of_array(items, k + 1));
    }
}

proof fn lemma_rest_of_object_chained(members: Seq<(Seq<char>, Value)>, k: int)
    ensures
        chained(rest_of_object(members, k), 0, rest_of_object(members, k).len() as int),
    decreases members, members.len() - k,
{
    if 0 <= k < members.len() {
        let head = seq![Lexeme::Comma, Lexeme::String(members[k].0), Lexeme::Colon];
        lemma_tokens_of_chained(members[k].1);
        lemma_tokens_of_ends(members[k].1);
        lemma_rest_of_object_chained(members, k + 1);
        lemma_rest_of_object_ends(members, k + 1);
        lemma_chained_parts(head, tokens_of(members[k].1));
        lemma_chained_parts(head + tokens_of(members[k].1), rest_of_object(members, k + 1));
    }
}

} // verus!

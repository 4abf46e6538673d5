//! The tree that a JSON text denotes, and its mathematical model.

use vstd::prelude::*;
use crate::keys::key_lt;
use crate::number::is_number_text;

verus! {

/// The mathematical model of a JSON tree.
///
/// Text is a sequence of characters; a number is the text of its literal; an
/// object is the sequence of its members, which a well-formed tree holds in
/// ascending key order.
pub enum Value {
    Null,
    Boolean(bool),
    Number(Seq<char>),
    String(Seq<char>),
    Array(Seq<Value>),
    Object(Seq<(Seq<char>, Value)>),
}

/// A JSON value.
///
/// `Number` holds the literal as it was written, sign, fraction and exponent
/// included, so that two numbers are equal where their literals are.
/// `Object` holds its members in ascending key order, each key once.
#[derive(Debug, PartialEq)]
pub enum Json {
    Array(Vec<Json>),
    Boolean(bool),
    Null,
    Number(String),
    Object(Vec<(String, Json)>),
    String(String),
}

/// Whether the keys of `members` strictly ascend, so that none occurs twice.
pub open spec fn keys_ascending(members: Seq<(Seq<char>, Value)>) -> bool {
    forall|i: int, j: int|
        #![trigger members[i], members[j]]
        0 <= i < j < members.len() ==> key_lt(members[i].0, members[j].0)
}

impl Value {
    /// Whether every object in the tree holds its members in ascending key
    /// order and every number is the text of a number literal.
    pub open spec fn wf(self) -> bool
        decreases self,
    {
        match self {
            Value::Number(text) => is_number_text(text),
            Value::Array(items) => forall|i: int|
                0 <= i < items.len() ==> (#[trigger] items[i]).wf(),
            Value::Object(members) => keys_ascending(members) && forall|i: int|
                0 <= i < members.len() ==> (#[trigger] members[i]).1.wf(),
            _ => true,
        }
    }
}

impl Value {
    /// Whether every number in the tree is the text of a number literal.
    pub open spec fn numeric(self) -> bool
        decreases self,
    {
        match self {
            Value::Number(text) => is_number_text(text),
            Value::Array(items) => forall|i: int|
                0 <= i < items.len() ==> (#[trigger] items[i]).numeric(),
            Value::Object(members) => forall|i: int|
                0 <= i < members.len() ==> (#[trigger] members[i]).1.numeric(),
            _ => true,
        }
    }
}

/// The numbers of a well-formed tree are number literals.
pub proof fn lemma_wf_numeric(value: Value)
    requires
        value.wf(),
    ensures
        value.numeric(),
    decreases value,
{
    match value {
        Value::Array(items) => {
            assert forall|i: int| 0 <= i < items.len() implies (#[trigger] items[i]).numeric() by {
                lemma_wf_numeric(items[i]);
            }
        },
        Value::Object(members) => {
            assert forall|i: int| 0 <= i < members.len() implies (#[trigger] members[i]).1.numeric() by {
                lemma_wf_numeric(members[i].1);
            }
        },
        _ => {},
    }
}

impl View for Json {
    type V = Value;

    open spec fn view(&self) -> Value
        decreases self,
    {
        match self {
            Json::Null => Value::Null,
            Json::Boolean(b) => Value::Boolean(*b),
            Json::Number(text) => Value::Number(text@),
            Json::String(text) => Value::String(text@),
            Json::Array(items) => Value::Array(
                Seq::new(
                    items@.len(),
                    |i: int|
                        if 0 <= i < items@.len() {
                            items@[i].view()
                        } else {
                            Value::Null
                        },
                ),
            ),
            Json::Object(members) => Value::Object(
                Seq::new(
                    members@.len(),
                    |i: int|
                        (
                            members@[i].0@,
                            if 0 <= i < members@.len() {
                                members@[i].1.view()
                            } else {
                                Value::Null
                            },
                        ),
                ),
            ),
        }
    }
}

/// The models of a sequence of trees.
pub open spec fn items_view(items: Seq<Json>) -> Seq<Value> {
    Seq::new(items.len(), |i: int| items[i]@)
}

/// The models of a sequence of members.
pub open spec fn members_view(members: Seq<(String, Json)>) -> Seq<(Seq<char>, Value)> {
    Seq::new(members.len(), |i: int| (members[i].0@, members[i].1@))
}

/// The model of the tree that a parser run gave, if it gave one.
pub open spec fn parsed(r: Option<Json>) -> Option<Value> {
    match r {
        Some(json) => Some(json@),
        None => None,
    }
}

/// The model of an array is the sequence of its items' models.
pub proof fn lemma_view_array(items: Vec<Json>)
    ensures
        Json::Array(items)@ == Value::Array(items_view(items@)),
{
    assert(Json::Array(items)@->Array_0 =~= items_view(items@));
}

/// The model of an object is the sequence of its members' models.
pub proof fn lemma_view_object(members: Vec<(String, Json)>)
    ensures
        Json::Object(members)@ == Value::Object(members_view(members@)),
{
    let model = Json::Object(members)@->Object_0;
    assert(model =~= members_view(members@));
}

/// Hands out the items of an array.
pub fn get_vec(value: &mut Json) -> (items: &mut Vec<Json>)
    requires
        *old(value) is Array,
    ensures
        *items == old(value)->Array_0,
        *final(value) == Json::Array(*final(items)),
{
    match value {
        Json::Array(items) => items,
        _ => vstd::pervasive::unreached(),
    }
}

/// Hands out the members of an object.
pub fn get_map(value: &mut Json) -> (members: &mut Vec<(String, Json)>)
    requires
        *old(value) is Object,
    ensures
        *members == old(value)->Object_0,
        *final(value) == Json::Object(*final(members)),
{
    match value {
        Json::Object(members) => members,
        _ => vstd::pervasive::unreached(),
    }
}

} // verus!

//! The members of an object: a sequence kept in ascending key order, so that
//! a key is found, and a new member placed, by comparison.

use vstd::prelude::*;
use crate::keys::{
    compare_keys, key_lt, lemma_key_lt_asymmetric, lemma_key_lt_total, lemma_key_lt_transitive,
    KeyOrder,
};
use crate::value::{keys_ascending, members_view, Json, Value};

verus! {

/// Whether a member of `members` has the key `key`.
pub open spec fn has_key(members: Seq<(Seq<char>, Value)>, key: Seq<char>) -> bool {
    exists|i: int| 0 <= i < members.len() && (#[trigger] members[i]).0 == key
}

/// How many members have a key less than `key`.
pub open spec fn rank(members: Seq<(Seq<char>, Value)>, key: Seq<char>) -> int
    decreases members.len(),
{
    if members.len() == 0 {
        0
    } else if key_lt(members.last().0, key) {
        rank(members.drop_last(), key) + 1
    } else {
        rank(members.drop_last(), key)
    }
}

/// `members` with a member for `key` put behind the members whose keys are
/// less.
pub open spec fn insert_entry(
    members: Seq<(Seq<char>, Value)>,
    key: Seq<char>,
    value: Value,
) -> Seq<(Seq<char>, Value)> {
    members.insert(rank(members, key), (key, value))
}

pub proof fn lemma_rank_bounds(members: Seq<(Seq<char>, Value)>, key: Seq<char>)
    ensures
        0 <= rank(members, key) <= members.len(),
    decreases members.len(),
{
    if members.len() > 0 {
        lemma_rank_bounds(members.drop_last(), key);
    }
}

/// Where the members before `i` have lesser keys and those from `i` on have
/// not, the rank is `i`.
pub proof fn lemma_rank_is(members: Seq<(Seq<char>, Value)>, key: Seq<char>, i: int)
    requires
        0 <= i <= members.len(),
        forall|j: int| 0 <= j < i ==> key_lt((#[trigger] members[j]).0, key),
        forall|j: int| i <= j < members.len() ==> !key_lt((#[trigger] members[j]).0, key),
    ensures
        rank(members, key) == i,
    decreases members.len(),
{
    if members.len() > 0 {
        let front = members.drop_last();
        let last = members.len() - 1;
        assert(members.last() == members[last]);
        assert forall|j: int| 0 <= j < front.len() implies front[j] == members[j] by {}
        if i == members.len() {
            lemma_rank_is(front, key, i - 1);
        } else {
            lemma_rank_is(front, key, i);
        }
    }
}

/// In ascending members, those with a key less than `key` come first.
pub proof fn lemma_rank_splits(members: Seq<(Seq<char>, Value)>, key: Seq<char>)
    requires
        keys_ascending(members),
    ensures
        0 <= rank(members, key) <= members.len(),
        forall|j: int| 0 <= j < rank(members, key) ==> key_lt((#[trigger] members[j]).0, key),
        forall|j: int|
            rank(members, key) <= j < members.len() ==> !key_lt((#[trigger] members[j]).0, key),
    decreases members.len(),
{
    if members.len() > 0 {
        let front = members.drop_last();
        let last = members.len() - 1;
        assert(members.last() == members[last]);
        assert forall|j: int| 0 <= j < front.len() implies front[j] == members[j] by {}
        assert(keys_ascending(front)) by {
            assert forall|i: int, j: int| 0 <= i < j < front.len() implies key_lt(
                front[i].0,
                front[j].0,
            ) by {
                assert(key_lt(members[i].0, members[j].0));
            }
        }
        lemma_rank_splits(front, key);
        if key_lt(members[last].0, key) {
            assert forall|j: int| 0 <= j < last implies key_lt((#[trigger] members[j]).0, key) by {
                assert(key_lt(members[j].0, members[last].0));
                lemma_key_lt_transitive(members[j].0, members[last].0, key);
            }
            if rank(front, key) < last {
                assert(!key_lt(front[rank(front, key)].0, key));
            }
        }
    }
}

/// A member with a new key, placed by its rank, leaves the keys ascending.
pub proof fn lemma_insert_entry_ascending(
    members: Seq<(Seq<char>, Value)>,
    key: Seq<char>,
    value: Value,
)
    requires
        keys_ascending(members),
        !has_key(members, key),
    ensures
        keys_ascending(insert_entry(members, key, value)),
{
    lemma_rank_splits(members, key);
    let r = rank(members, key);
    let after = insert_entry(members, key, value);
    assert forall|i: int, j: int| 0 <= i < j < after.len() implies key_lt(
        after[i].0,
        after[j].0,
    ) by {
        if j < r {
            assert(after[i] == members[i] && after[j] == members[j]);
        } else if j == r {
            assert(after[i] == members[i]);
        } else if i == r {
            assert(after[j] == members[j - 1]);
            assert(!key_lt(members[j - 1].0, key));
            assert(members[j - 1].0 != key);
            lemma_key_lt_total(members[j - 1].0, key);
        } else if i < r {
            assert(after[i] == members[i] && after[j] == members[j - 1]);
        } else {
            assert(after[i] == members[i - 1] && after[j] == members[j - 1]);
        }
    }
}

/// After an insertion the new key is there, and a key is there that was there
/// before.
pub proof fn lemma_insert_entry_has_key(
    members: Seq<(Seq<char>, Value)>,
    key: Seq<char>,
    value: Value,
    other: Seq<char>,
)
    ensures
        has_key(insert_entry(members, key, value), other) <==> (other == key || has_key(
            members,
            other,
        )),
{
    lemma_rank_bounds(members, key);
    let r = rank(members, key);
    let after = insert_entry(members, key, value);
    if has_key(members, other) {
        let i = choose|i: int| 0 <= i < members.len() && (#[trigger] members[i]).0 == other;
        if i < r {
            assert(after[i] == members[i]);
        } else {
            assert(after[i + 1] == members[i]);
        }
    }
    if other == key {
        assert(after[r].0 == key);
    }
    if has_key(after, other) {
        let i = choose|i: int| 0 <= i < after.len() && (#[trigger] after[i]).0 == other;
        if i < r {
            assert(after[i] == members[i]);
        } else if i > r {
            assert(after[i] == members[i - 1]);
        }
    }
}

/// Looks for `key` among ascending members by bisection: `None` where a
/// member has it, else the index at which a member with that key belongs.
pub fn find_member(members: &Vec<(String, Json)>, key: &String) -> (r: Option<usize>)
    requires
        keys_ascending(members_view(members@)),
    ensures
        r is None <==> has_key(members_view(members@), key@),
        r matches Some(at) ==> at == rank(members_view(members@), key@),
{
    let ghost model = members_view(members@);
    let mut low: usize = 0;
    let mut high: usize = members.len();
    while low < high
        invariant
            model == members_view(members@),
            keys_ascending(model),
            low <= high <= members@.len(),
            forall|j: int| 0 <= j < low ==> key_lt((#[trigger] model[j]).0, key@),
            forall|j: int| high <= j < model.len() ==> key_lt(key@, (#[trigger] model[j]).0),
        decreases high - low,
    {
        let middle = low + (high - low) / 2;
        match compare_keys(key, &members[middle].0) {
            KeyOrder::Less => {
                proof {
                    assert forall|j: int| middle <= j < model.len() implies key_lt(
                        key@,
                        (#[trigger] model[j]).0,
                    ) by {
                        if middle < j {
                            assert(key_lt(model[middle as int].0, model[j].0));
                            lemma_key_lt_transitive(key@, model[middle as int].0, model[j].0);
                        }
                    }
                }
                high = middle;
            },
            KeyOrder::Equal => {
                assert(model[middle as int].0 == key@);
                return None;
            },
            KeyOrder::Greater => {
                proof {
                    assert forall|j: int| 0 <= j < middle + 1 implies key_lt(
                        (#[trigger] model[j]).0,
                        key@,
                    ) by {
                        if j < middle {
                            assert(key_lt(model[j].0, model[middle as int].0));
                            lemma_key_lt_transitive(model[j].0, model[middle as int].0, key@);
                        }
                    }
                }
                low = middle + 1;
            },
        }
    }
    proof {
        assert forall|j: int| low <= j < model.len() implies !key_lt(
            (#[trigger] model[j]).0,
            key@,
        ) by {
            lemma_key_lt_asymmetric(model[j].0, key@);
        }
        lemma_rank_is(model, key@, low as int);
        assert forall|j: int| 0 <= j < model.len() implies (#[trigger] model[j]).0 != key@ by {
            lemma_key_lt_asymmetric(model[j].0, key@);
        }
    }
    Some(low)
}

/// Puts a member for `key` among ascending members, unless one of them has
/// that key already.
pub fn insert_member(members: &mut Vec<(String, Json)>, key: String, value: Json) -> (inserted:
    bool)
    requires
        keys_ascending(members_view(old(members)@)),
    ensures
        inserted == !has_key(members_view(old(members)@), key@),
        inserted ==> members_view(final(members)@) == insert_entry(
            members_view(old(members)@),
            key@,
            value@,
        ),
        !inserted ==> final(members)@ == old(members)@,
        keys_ascending(members_view(final(members)@)),
{
    match find_member(members, &key) {
        Some(at) => {
            proof {
                lemma_rank_bounds(members_view(members@), key@);
                lemma_insert_entry_ascending(members_view(members@), key@, value@);
            }
            let ghost before = members@;
            let ghost expected = insert_entry(members_view(before), key@, value@);
            members.insert(at, (key, value));
            proof {
                assert(members_view(members@).len() == expected.len());
                assert forall|i: int| 0 <= i < expected.len() implies members_view(members@)[i]
                    == expected[i] by {
                    if i < at {
                        assert(members@[i] == before[i]);
                    } else if i > at {
                        assert(members@[i] == before[i - 1]);
                    }
                }
                assert(members_view(members@) =~= expected);
            }
            true
        },
        None => false,
    }
}

} // verus!

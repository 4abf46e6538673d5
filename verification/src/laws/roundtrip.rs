//! Writing a tree and reading it again: the compact text of a tree parses to
//! the tree with the members of every object in key order, to the tree
//! itself where it is well-formed, and to nothing where an object holds a
//! key twice.

use vstd::prelude::*;
use crate::laws::canonical::{
    canonical, lemma_canonical_of_wf, lemma_parse_tokens_of, lemma_repeated_key_is_not_canonical,
    lemma_tokens_of_chained, lemma_tokens_of_wf, repeats_key, tokens_of,
};
use crate::grammar::{lemma_parse_text_wf, parse_text};
use crate::value::{lemma_wf_numeric, Value};
use crate::laws::writer::{lemma_lex_of_spell, spell};

verus! {

/// The compact text of `value`: its tokens, with nothing between them.
pub open spec fn text_of(value: Value) -> Seq<u8> {
    spell(tokens_of(value))
}

/// The compact text of a tree whose numbers are number literals parses to
/// the tree made canonical: the order in which the text gives the members of
/// an object does not matter, and a key that an object holds twice fails the
/// parse.
pub proof fn lemma_parse_of_text(value: Value)
    requires
        value.numeric(),
    ensures
        parse_text(text_of(value)) == canonical(value),
{
    lemma_parse_tokens_of(value);
    lemma_tokens_of_wf(value);
    lemma_tokens_of_chained(value);
    lemma_lex_of_spell(tokens_of(value));
}

/// The compact text of a well-formed tree parses to that tree.
pub proof fn lemma_round_trip(value: Value)
    requires
        value.wf(),
    ensures
        parse_text(text_of(value)) == Some(value),
{
    lemma_wf_numeric(value);
    lemma_parse_of_text(value);
    lemma_canonical_of_wf(value);
}

/// Writing the tree that a text parses to and parsing what was written gives
/// that tree again.
pub proof fn lemma_reparse(s: Seq<u8>)
    requires
        parse_text(s) is Some,
    ensures
        parse_text(text_of(parse_text(s).unwrap())) == parse_text(s),
{
    lemma_parse_text_wf(s);
    lemma_round_trip(parse_text(s).unwrap());
}

/// The text of a tree in which an object holds a key twice fails to parse,
/// however deep the object lies, whether or not the values under the two
/// keys are equal, and whatever else the tree holds.
pub proof fn lemma_repeated_key_fails(value: Value)
    requires
        value.numeric(),
        repeats_key(value),
    ensures
        parse_text(text_of(value)) is None,
{
    lemma_parse_of_text(value);
    lemma_repeated_key_is_not_canonical(value);
}

} // verus!

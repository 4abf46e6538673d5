//! The tree builder: one pass over the tokens with an explicit stack of
//! frames in place of recursion.
//!
//! A frame owns the container that it fills and knows its place in the
//! grammar. The frame on top is the one that the next token concerns; every
//! frame under it waits for the container above it to be closed, and takes it
//! in as its next item or as the value of its pending key.

use vstd::prelude::*;
use crate::grammar::{
    array_after, array_begin, array_item, lemma_parse_text_wf, lemma_parse_tokens_wf,
    lemma_value_at_advances, object_after, object_begin, object_colon, object_member,
    object_value, parse_text, parse_tokens, value_at,
};
use crate::lexer::{lexemes_of, lexemes_wf, tokenize, Lexeme, Token};
use crate::members::{find_member, has_key, insert_entry, insert_member};
use crate::value::{
    get_map, get_vec, items_view, keys_ascending, lemma_view_array, lemma_view_object,
    members_view, parsed, Json, Value,
};

verus! {

/// A frame's place in the grammar.
#[derive(Clone, Copy, Debug, PartialEq, Eq)]
pub enum State {
    /// Before the root value.
    Start,
    /// Behind `[`.
    ArrayBegin,
    /// Behind a comma in an array.
    ArrayComma,
    /// Behind an item of an array.
    ArrayValue,
    /// Behind `{`.
    ObjectBegin,
    /// Behind a key's colon.
    ObjectColon,
    /// Behind a comma in an object.
    ObjectComma,
    /// Behind a key.
    ObjectKey,
    /// Behind a member's value.
    ObjectValue,
    /// Behind the root value.
    RootValue,
}

/// One entry of the stack: a place in the grammar, the container that is
/// being filled (for the root frame, the root value once it is there), and
/// the key that waits for its value.
pub struct Frame {
    pub state: State,
    pub target: Json,
    pub key: String,
}

/// The mathematical model of a frame.
pub struct FrameModel {
    pub state: State,
    pub target: Value,
    pub key: Seq<char>,
}

impl View for Frame {
    type V = FrameModel;

    open spec fn view(&self) -> FrameModel {
        FrameModel { state: self.state, target: self.target@, key: self.key@ }
    }
}

impl FrameModel {
    /// Whether the container is of the kind that the state speaks of.
    pub open spec fn wf(self) -> bool {
        match self.state {
            State::Start | State::RootValue => true,
            State::ArrayBegin => self.target == Value::Array(Seq::empty()),
            State::ArrayComma | State::ArrayValue => self.target is Array,
            State::ObjectBegin => self.target == Value::Object(Seq::empty()),
            _ => self.target is Object && keys_ascending(self.target->Object_0),
        }
    }

    /// Whether the frame can wait under another: it stands behind a value
    /// that is still being built, and its pending key, if it has one, is new.
    pub open spec fn waiting(self) -> bool {
        match self.state {
            State::RootValue | State::ArrayValue => true,
            State::ObjectValue => !has_key(self.target->Object_0, self.key),
            _ => false,
        }
    }

    /// What the frame's container comes to when the frame is on top and the
    /// next token is token `i`.
    pub open spec fn outlook(self, ts: Seq<Lexeme>, i: int) -> Option<(Value, int)> {
        match self.state {
            State::Start => value_at(ts, i),
            State::RootValue => Some((self.target, i)),
            State::ArrayBegin => array_begin(ts, i),
            State::ArrayComma => array_item(ts, i, self.target->Array_0),
            State::ArrayValue => array_after(ts, i, self.target->Array_0),
            State::ObjectBegin => object_begin(ts, i),
            State::ObjectComma => object_member(ts, i, self.target->Object_0),
            State::ObjectKey => object_colon(ts, i, self.target->Object_0, self.key),
            State::ObjectColon => object_value(ts, i, self.target->Object_0, self.key),
            State::ObjectValue => object_after(ts, i, self.target->Object_0),
        }
    }

    /// What the frame's container comes to when the frame waits and the
    /// container above it is closed before token `i` with the value `child`.
    pub open spec fn resumed(self, ts: Seq<Lexeme>, child: Value, i: int) -> Option<(Value, int)> {
        match self.state {
            State::RootValue => Some((child, i)),
            State::ArrayValue => array_after(ts, i, self.target->Array_0.push(child)),
            State::ObjectValue => object_after(
                ts,
                i,
                insert_entry(self.target->Object_0, self.key, child),
            ),
            _ => None,
        }
    }
}

/// The models of a sequence of frames.
pub open spec fn models_of(frames: Seq<Frame>) -> Seq<FrameModel> {
    frames.map_values(|frame: Frame| frame@)
}

/// What the whole parse comes to when the container on top of the waiting
/// frames `below` comes to `r`: each waiting frame takes the value in and
/// goes on from where it ended, and behind the root value no token is left.
pub open spec fn deliver(below: Seq<FrameModel>, ts: Seq<Lexeme>, r: Option<(Value, int)>) -> Option<
    Value,
>
    decreases below.len(),
{
    match r {
        None => None,
        Some((value, i)) => if below.len() == 0 {
            if i == ts.len() {
                Some(value)
            } else {
                None
            }
        } else {
            deliver(below.drop_last(), ts, below.last().resumed(ts, value, i))
        },
    }
}

/// What the whole parse comes to from a stack and a token index.
pub open spec fn run(below: Seq<FrameModel>, top: FrameModel, ts: Seq<Lexeme>, i: int) -> Option<
    Value,
> {
    deliver(below, ts, top.outlook(ts, i))
}

/// The stack's invariant: the root frame lies at the bottom and nowhere
/// else, and every frame under the top waits.
pub open spec fn stack_inv(below: Seq<FrameModel>, top: FrameModel) -> bool {
    &&& top.wf()
    &&& (top.state is Start || top.state is RootValue) <==> below.len() == 0
    &&& forall|k: int|
        0 <= k < below.len() ==> {
            &&& (#[trigger] below[k]).wf()
            &&& below[k].waiting()
            &&& (below[k].state is RootValue <==> k == 0)
        }
}

pub open spec fn is_literal(lexeme: Lexeme) -> bool {
    lexeme is Null || lexeme is Boolean || lexeme is Number || lexeme is String
}

proof fn lemma_deliver_push(
    below: Seq<FrameModel>,
    waiting: FrameModel,
    ts: Seq<Lexeme>,
    r: Option<(Value, int)>,
)
    ensures
        deliver(below.push(waiting), ts, r) == match r {
            Some((value, i)) => deliver(below, ts, waiting.resumed(ts, value, i)),
            None => None,
        },
{
    assert(below.push(waiting).drop_last() =~= below);
}

proof fn lemma_models_push(frames: Seq<Frame>, frame: Frame)
    ensures
        models_of(frames.push(frame)) == models_of(frames).push(frame@),
{
    assert(models_of(frames.push(frame)) =~= models_of(frames).push(frame@));
}

proof fn lemma_models_drop_last(frames: Seq<Frame>)
    requires
        frames.len() > 0,
    ensures
        models_of(frames.drop_last()) == models_of(frames).drop_last(),
        models_of(frames).last() == frames.last()@,
{
    assert(models_of(frames.drop_last()) =~= models_of(frames).drop_last());
}

/// Takes in a value that one token spells.
fn put_value(
    top: &mut Frame,
    value: Json,
    Ghost(below): Ghost<Seq<FrameModel>>,
    Ghost(ts): Ghost<Seq<Lexeme>>,
    Ghost(i): Ghost<int>,
) -> (ok: bool)
    requires
        stack_inv(below, old(top)@),
        0 <= i < ts.len(),
        is_literal(ts[i]),
        value_at(ts, i) == Some((value@, i + 1)),
        ts[i] is String ==> !(old(top).state is ObjectBegin || old(top).state is ObjectComma),
    ensures
        ok ==> stack_inv(below, final(top)@) && run(below, final(top)@, ts, i + 1) == run(
            below,
            old(top)@,
            ts,
            i,
        ),
        !ok ==> run(below, old(top)@, ts, i) is None,
{
    match top.state {
        State::Start => {
            top.target = value;
            top.state = State::RootValue;
            true
        },
        State::ArrayBegin | State::ArrayComma => {
            let ghost before = top.target->Array_0;
            proof {
                lemma_view_array(before);
            }
            get_vec(&mut top.target).push(value);
            top.state = State::ArrayValue;
            proof {
                lemma_view_array(top.target->Array_0);
                assert(items_view(top.target->Array_0@) =~= items_view(before@).push(value@));
            }
            true
        },
        State::ObjectColon => {
            let ghost before = top.target->Object_0;
            proof {
                lemma_view_object(before);
            }
            let mut key = String::new();
            core::mem::swap(&mut top.key, &mut key);
            let inserted = insert_member(get_map(&mut top.target), key, value);
            proof {
                lemma_view_object(top.target->Object_0);
            }
            if inserted {
                top.state = State::ObjectValue;
            }
            inserted
        },
        _ => false,
    }
}

/// Opens a container: the frame on top goes on to wait, and a frame for the
/// new container comes on top of it.
fn open_container(
    below: &mut Vec<Frame>,
    top: &mut Frame,
    container: Json,
    begin: State,
    Ghost(ts): Ghost<Seq<Lexeme>>,
    Ghost(i): Ghost<int>,
) -> (ok: bool)
    requires
        stack_inv(models_of(old(below)@), old(top)@),
        0 <= i < ts.len(),
        (ts[i] is ArrayBegin && begin is ArrayBegin && container@ == Value::Array(Seq::empty()))
            || (ts[i] is ObjectBegin && begin is ObjectBegin && container@ == Value::Object(
            Seq::empty(),
        )),
    ensures
        ok ==> stack_inv(models_of(final(below)@), final(top)@) && run(
            models_of(final(below)@),
            final(top)@,
            ts,
            i + 1,
        ) == run(models_of(old(below)@), old(top)@, ts, i),
        !ok ==> run(models_of(old(below)@), old(top)@, ts, i) is None,
{
    let ghost waiting_models = models_of(below@);
    proof {
        lemma_value_at_advances(ts, i);
    }
    match top.state {
        State::Start => {
            top.state = State::RootValue;
        },
        State::ArrayBegin | State::ArrayComma => {
            top.state = State::ArrayValue;
        },
        State::ObjectColon => {
            let found = match &top.target {
                Json::Object(members) => {
                    proof {
                        lemma_view_object(*members);
                    }
                    find_member(members, &top.key)
                },
                _ => None,
            };
            if found.is_none() {
                return false;
            }
            top.state = State::ObjectValue;
        },
        _ => {
            return false;
        },
    }
    let mut frame = Frame { state: begin, target: container, key: String::new() };
    core::mem::swap(top, &mut frame);
    proof {
        lemma_models_push(below@, frame);
        lemma_deliver_push(waiting_models, frame@, ts, top@.outlook(ts, i + 1));
    }
    below.push(frame);
    true
}

/// Closes the container on top: its frame leaves the stack, and the frame
/// under it takes the container in.
fn close_container(
    below: &mut Vec<Frame>,
    top: &mut Frame,
    array: bool,
    Ghost(ts): Ghost<Seq<Lexeme>>,
    Ghost(i): Ghost<int>,
) -> (ok: bool)
    requires
        stack_inv(models_of(old(below)@), old(top)@),
        0 <= i < ts.len(),
        (array && ts[i] is ArrayEnd) || (!array && ts[i] is ObjectEnd),
    ensures
        ok ==> stack_inv(models_of(final(below)@), final(top)@) && run(
            models_of(final(below)@),
            final(top)@,
            ts,
            i + 1,
        ) == run(models_of(old(below)@), old(top)@, ts, i),
        !ok ==> run(models_of(old(below)@), old(top)@, ts, i) is None,
{
    let closes = match top.state {
        State::ArrayBegin | State::ArrayValue => array,
        State::ObjectBegin | State::ObjectValue => !array,
        _ => false,
    };
    if !closes {
        return false;
    }
    proof {
        lemma_models_drop_last(below@);
        assert(top@.outlook(ts, i) == Some((top@.target, i + 1)));
    }
    let mut frame = match below.pop() {
        Some(frame) => frame,
        None => {
            return false;
        },
    };
    core::mem::swap(top, &mut frame);
    let child = frame.target;
    match top.state {
        State::RootValue => {
            top.target = child;
            true
        },
        State::ArrayValue => {
            let ghost before = top.target->Array_0;
            proof {
                lemma_view_array(before);
            }
            get_vec(&mut top.target).push(child);
            proof {
                lemma_view_array(top.target->Array_0);
                assert(items_view(top.target->Array_0@) =~= items_view(before@).push(child@));
            }
            true
        },
        State::ObjectValue => {
            let ghost before = top.target->Object_0;
            proof {
                lemma_view_object(before);
            }
            let mut key = String::new();
            core::mem::swap(&mut top.key, &mut key);
            let inserted = insert_member(get_map(&mut top.target), key, child);
            proof {
                lemma_view_object(top.target->Object_0);
            }
            inserted
        },
        _ => false,
    }
}

/// Takes in one token.
fn step(
    below: &mut Vec<Frame>,
    top: &mut Frame,
    token: Token,
    Ghost(ts): Ghost<Seq<Lexeme>>,
    Ghost(i): Ghost<int>,
) -> (ok: bool)
    requires
        stack_inv(models_of(old(below)@), old(top)@),
        0 <= i < ts.len(),
        ts[i] == token@,
    ensures
        ok ==> stack_inv(models_of(final(below)@), final(top)@) && run(
            models_of(final(below)@),
            final(top)@,
            ts,
            i + 1,
        ) == run(models_of(old(below)@), old(top)@, ts, i),
        !ok ==> run(models_of(old(below)@), old(top)@, ts, i) is None,
{
    match token {
        Token::ArrayBegin => {
            let container = Json::Array(Vec::new());
            proof {
                lemma_view_array(container->Array_0);
                assert(items_view(container->Array_0@) =~= Seq::<Value>::empty());
            }
            open_container(below, top, container, State::ArrayBegin, Ghost(ts), Ghost(i))
        },
        Token::ObjectBegin => {
            let container = Json::Object(Vec::new());
            proof {
                lemma_view_object(container->Object_0);
                assert(members_view(container->Object_0@) =~= Seq::<(Seq<char>, Value)>::empty());
            }
            open_container(below, top, container, State::ObjectBegin, Ghost(ts), Ghost(i))
        },
        Token::ArrayEnd => close_container(below, top, true, Ghost(ts), Ghost(i)),
        Token::ObjectEnd => close_container(below, top, false, Ghost(ts), Ghost(i)),
        Token::Boolean(value) => put_value(
            top,
            Json::Boolean(value),
            Ghost(models_of(below@)),
            Ghost(ts),
            Ghost(i),
        ),
        Token::Null => put_value(top, Json::Null, Ghost(models_of(below@)), Ghost(ts), Ghost(i)),
        Token::Number(text) => put_value(
            top,
            Json::Number(text),
            Ghost(models_of(below@)),
            Ghost(ts),
            Ghost(i),
        ),
        Token::String(text) => match top.state {
            State::ObjectBegin | State::ObjectComma => {
                top.key = text;
                top.state = State::ObjectKey;
                true
            },
            _ => put_value(
                top,
                Json::String(text),
                Ghost(models_of(below@)),
                Ghost(ts),
                Ghost(i),
            ),
        },
        Token::Colon => match top.state {
            State::ObjectKey => {
                top.state = State::ObjectColon;
                true
            },
            _ => false,
        },
        Token::Comma => match top.state {
            State::ArrayValue => {
                top.state = State::ArrayComma;
                true
            },
            State::ObjectValue => {
                top.state = State::ObjectComma;
                true
            },
            _ => false,
        },
    }
}

/// Builds the tree that the tokens spell, otherwise `None`.
pub fn parse(tokens: Vec<Token>) -> (r: Option<Json>)
    ensures
        parsed(r) == parse_tokens(lexemes_of(tokens@)),
        lexemes_wf(lexemes_of(tokens@)) ==> (r matches Some(json) ==> json@.wf()),
{
    let ghost ts = lexemes_of(tokens@);
    proof {
        if lexemes_wf(ts) && parse_tokens(ts) is Some {
            lemma_parse_tokens_wf(ts);
        }
    }
    let mut below: Vec<Frame> = Vec::new();
    let mut top = Frame { state: State::Start, target: Json::Null, key: String::new() };
    assert(models_of(below@) =~= Seq::<FrameModel>::empty());
    for token in iter: tokens
        invariant
            ts == lexemes_of(tokens@),
            iter.seq() == tokens@,
            stack_inv(models_of(below@), top@),
            run(models_of(below@), top@, ts, iter.index() as int) == parse_tokens(ts),
    {
        if !step(&mut below, &mut top, token, Ghost(ts), Ghost(iter.index() as int)) {
            return None;
        }
    }
    match top.state {
        State::RootValue => Some(top.target),
        _ => None,
    }
}

impl Json {
    /// Parses a JSON text: the tree that `bytes` spells, or `None` where
    /// `bytes` is not one JSON text.
    pub fn parse(bytes: &[u8]) -> (r: Option<Json>)
        ensures
            parsed(r) == parse_text(bytes@),
            r matches Some(json) ==> json@.wf(),
    {
        proof {
            if parse_text(bytes@) is Some {
                lemma_parse_text_wf(bytes@);
            }
        }
        match tokenize(bytes) {
            Some(tokens) => parse(tokens),
            None => None,
        }
    }
}

} // verus!

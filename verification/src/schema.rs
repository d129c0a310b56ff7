//! System One request schema aligned with TypeSafe Jev.
//!
//! Wire shape matches `POST /v1/systemone`:
//! `{ "model", "state", "questions" }` → `{ "model", "answers", "usage" }`.
//! JSON values reach the library as [`Json`]: the value tree (for string
//! leaves) together with its compact JSON encoding (for prompts).

use indexmap::IndexMap;
use vstd::prelude::*;

use crate::error::{Error, Result};
use crate::index_map::{
    option_at, option_count, option_entries, option_index, option_insert, option_map_new,
};
use crate::primitive::DecisionKind;
use crate::text::{append_chars, string_of, trim, trim_str};

verus! {

broadcast use vstd::std_specs::vec::group_vec_axioms;

/// A JSON value tree. Object members keep their order; every element and
/// member is a [`Json`], so it carries its own encoding.
#[derive(Debug, PartialEq)]
pub enum JsonValue {
    /// `null`.
    Null,
    /// `true` / `false`.
    Bool(bool),
    /// A number, as written.
    Number(String),
    /// A string.
    Str(String),
    /// An array.
    Array(Vec<Json>),
    /// An object (member name → value, in order).
    Object(Vec<(String, Json)>),
}

/// A JSON value together with its compact JSON encoding.
#[derive(Debug, PartialEq)]
pub struct Json {
    /// The value.
    pub value: JsonValue,
    /// Its compact JSON encoding (as `serde_json::to_string` writes it).
    pub text: String,
}

/// `b` is a copy of `a`: the same variant with the same scalars, and for
/// arrays and objects the same member names and encodings in the same order,
/// with each member value a copy in turn.
pub open spec fn is_copy(a: JsonValue, b: JsonValue) -> bool
    decreases a,
{
    match a {
        JsonValue::Array(xs) => match b {
            JsonValue::Array(ys) => ys@.len() == xs@.len() && forall|i: int|
                0 <= i < xs@.len() ==> #[trigger] ys@[i].text == xs@[i].text && is_copy(
                    xs@[i].value,
                    ys@[i].value,
                ),
            _ => false,
        },
        JsonValue::Object(xs) => match b {
            JsonValue::Object(ys) => ys@.len() == xs@.len() && forall|i: int|
                #![trigger ys@[i]]
                0 <= i < xs@.len() ==> ys@[i].0 == xs@[i].0 && ys@[i].1.text == xs@[i].1.text
                    && is_copy(xs@[i].1.value, ys@[i].1.value),
            _ => false,
        },
        _ => b == a,
    }
}

fn copy_value(v: &JsonValue) -> (r: JsonValue)
    ensures
        is_copy(*v, r),
    decreases v,
{
    match v {
        JsonValue::Null => JsonValue::Null,
        JsonValue::Bool(b) => JsonValue::Bool(*b),
        JsonValue::Number(s) => JsonValue::Number(s.clone()),
        JsonValue::Str(s) => JsonValue::Str(s.clone()),
        JsonValue::Array(items) => {
            let mut out: Vec<Json> = Vec::new();
            let mut i: usize = 0;
            while i < items.len()
                invariant
                    i <= items@.len(),
                    *v == JsonValue::Array(*items),
                    out@.len() == i,
                    forall|k: int|
                        0 <= k < i ==> #[trigger] out@[k].text == items@[k].text && is_copy(
                            items@[k].value,
                            out@[k].value,
                        ),
                decreases items@.len() - i,
            {
                proof {
                    assert(decreases_to!(*v => (*v)->Array_0));
                    assert(decreases_to!(*items => items@));
                    assert(decreases_to!(items@ => items@[i as int]));
                    assert(decreases_to!(items@[i as int] => items@[i as int].value));
                }
                let value = copy_value(&items[i].value);
                out.push(Json { value, text: items[i].text.clone() });
                i = i + 1;
            }
            proof {
                assert(out@.len() == items@.len());
                assert(*v == JsonValue::Array(*items));
                assert(is_copy(*v, JsonValue::Array(out)));
            }
            JsonValue::Array(out)
        },
        JsonValue::Object(fields) => {
            let mut out: Vec<(String, Json)> = Vec::new();
            let mut i: usize = 0;
            while i < fields.len()
                invariant
                    i <= fields@.len(),
                    *v == JsonValue::Object(*fields),
                    out@.len() == i,
                    forall|k: int|
                        #![trigger out@[k]]
                        0 <= k < i ==> out@[k].0 == fields@[k].0 && out@[k].1.text == fields@[k].1.text
                            && is_copy(fields@[k].1.value, out@[k].1.value),
                decreases fields@.len() - i,
            {
                proof {
                    assert(decreases_to!(*v => (*v)->Object_0));
                    assert(decreases_to!(*fields => fields@));
                    assert(decreases_to!(fields@ => fields@[i as int]));
                    assert(decreases_to!(fields@[i as int] => fields@[i as int].1));
                    assert(decreases_to!(fields@[i as int].1 => fields@[i as int].1.value));
                }
                let value = copy_value(&fields[i].1.value);
                out.push((fields[i].0.clone(), Json { value, text: fields[i].1.text.clone() }));
                i = i + 1;
            }
            proof {
                assert(*v == JsonValue::Object(*fields));
                assert(is_copy(*v, JsonValue::Object(out)));
            }
            JsonValue::Object(out)
        },
    }
}

impl Clone for JsonValue {
    fn clone(&self) -> Self {
        copy_value(self)
    }
}

impl Clone for Json {
    fn clone(&self) -> Self {
        Json { value: copy_value(&self.value), text: self.text.clone() }
    }
}

/// Content under evaluation: string, JSON object, or JSON array.
#[derive(Debug, Clone, PartialEq)]
pub enum State {
    /// Plain text.
    Text(String),
    /// Structured JSON object.
    Object(Json),
    /// Array of values (often text turns).
    Array(Json),
}

/// Question instructions: usually a string; structured JSON is allowed.
pub type Instructions = Json;

// ---------------------------------------------------------------------------
// Flattening string leaves
// ---------------------------------------------------------------------------

/// Parts joined by single spaces.
pub open spec fn join_space(parts: Seq<Seq<char>>) -> Seq<char>
    decreases parts.len(),
{
    if parts.len() == 0 {
        Seq::empty()
    } else if parts.len() == 1 {
        parts[0]
    } else {
        join_space(parts.drop_last()) + " "@ + parts.last()
    }
}

/// String leaves of a value, space-joined, stopping below depth 6.
pub open spec fn flat_value(v: JsonValue, depth: nat) -> Seq<char>
    decreases v,
{
    if depth > 6 {
        Seq::empty()
    } else {
        match v {
            JsonValue::Str(s) => s@,
            JsonValue::Array(items) => join_space(flat_items(items@, depth + 1)),
            JsonValue::Object(fields) => join_space(flat_fields(fields@, depth + 1)),
            _ => Seq::empty(),
        }
    }
}

/// Non-empty flattened array items, in order.
pub open spec fn flat_items(s: Seq<Json>, depth: nat) -> Seq<Seq<char>>
    decreases s,
{
    if s.len() == 0 {
        Seq::empty()
    } else {
        let rest = flat_items(s.drop_last(), depth);
        let t = flat_value(s.last().value, depth);
        if t.len() > 0 {
            rest.push(t)
        } else {
            rest
        }
    }
}

/// Non-empty flattened member values, in order.
pub open spec fn flat_fields(s: Seq<(String, Json)>, depth: nat) -> Seq<Seq<char>>
    decreases s,
{
    if s.len() == 0 {
        Seq::empty()
    } else {
        let rest = flat_fields(s.drop_last(), depth);
        let t = flat_value(s.last().1.value, depth);
        if t.len() > 0 {
            rest.push(t)
        } else {
            rest
        }
    }
}

/// Text that language / script detection reads from a state.
pub open spec fn flat_text_of(state: State) -> Seq<char> {
    match state {
        State::Text(s) => s@,
        State::Object(j) => flat_value(j.value, 0),
        State::Array(j) => flat_value(j.value, 0),
    }
}

/// Text that the model reads for a state.
pub open spec fn model_text_of(state: State) -> Seq<char> {
    match state {
        State::Text(s) => s@,
        State::Object(j) => j.text@,
        State::Array(j) => j.text@,
    }
}

/// Prompt text of a JSON value: a string's content, otherwise its encoding.
pub open spec fn json_text(j: Json) -> Seq<char> {
    match j.value {
        JsonValue::Str(s) => s@,
        _ => j.text@,
    }
}

proof fn lemma_join_push(parts: Seq<Seq<char>>, t: Seq<char>)
    ensures
        join_space(parts.push(t)) == if parts.len() == 0 {
            t
        } else {
            join_space(parts) + " "@ + t
        },
{
    assert(parts.push(t).drop_last() =~= parts);
}

#[verifier::rlimit(30)]
fn flatten_value(value: &JsonValue, depth: usize) -> (r: Vec<char>)
    requires
        depth <= 7,
    ensures
        r@ == flat_value(*value, depth as nat),
    decreases value,
{
    if depth > 6 {
        return Vec::new();
    }
    match value {
        JsonValue::Str(s) => crate::text::chars_of(s.as_str()),
        JsonValue::Array(items) => {
            let mut out: Vec<char> = Vec::new();
            let mut any = false;
            let ghost mut parts: Seq<Seq<char>> = Seq::empty();
            let mut i: usize = 0;
            while i < items.len()
                invariant
                    depth <= 6,
                    i <= items@.len(),
                    *value == JsonValue::Array(*items),
                    parts == flat_items(items@.take(i as int), (depth + 1) as nat),
                    out@ == join_space(parts),
                    any == (parts.len() > 0),
                decreases items@.len() - i,
            {
                proof {
                    assert(items@.take(i + 1).drop_last() == items@.take(i as int));
                    assert(items@.take(i + 1).last() == items@[i as int]);
                }
                proof {
                    assert(decreases_to!(*value => (*value)->Array_0));
                    assert(decreases_to!(*items => items@));
                    assert(decreases_to!(items@ => items@[i as int]));
                    assert(decreases_to!(items@[i as int] => items@[i as int].value));
                }
                let child = flatten_value(&items[i].value, depth + 1);
                if child.len() > 0 {
                    proof {
                        lemma_join_push(parts, child@);
                    }
                    if any {
                        out.push(' ');
                        proof {
                            reveal_strlit(" ");
                            assert(out@ == join_space(parts) + " "@);
                        }
                    }
                    append_chars(&mut out, child.as_slice());
                    any = true;
                    proof {
                        parts = parts.push(child@);
                    }
                }
                i = i + 1;
            }
            proof {
                assert(items@.take(items@.len() as int) == items@);
            }
            out
        },
        JsonValue::Object(fields) => {
            let mut out: Vec<char> = Vec::new();
            let mut any = false;
            let ghost mut parts: Seq<Seq<char>> = Seq::empty();
            let mut i: usize = 0;
            while i < fields.len()
                invariant
                    depth <= 6,
                    i <= fields@.len(),
                    *value == JsonValue::Object(*fields),
                    parts == flat_fields(fields@.take(i as int), (depth + 1) as nat),
                    out@ == join_space(parts),
                    any == (parts.len() > 0),
                decreases fields@.len() - i,
            {
                proof {
                    assert(fields@.take(i + 1).drop_last() == fields@.take(i as int));
                    assert(fields@.take(i + 1).last() == fields@[i as int]);
                }
                proof {
                    assert(decreases_to!(*value => (*value)->Object_0));
                    assert(decreases_to!(*fields => fields@));
                    assert(decreases_to!(fields@ => fields@[i as int]));
                    assert(decreases_to!(fields@[i as int] => fields@[i as int].1));
                    assert(decreases_to!(fields@[i as int].1 => fields@[i as int].1.value));
                }
                let child = flatten_value(&fields[i].1.value, depth + 1);
                if child.len() > 0 {
                    proof {
                        lemma_join_push(parts, child@);
                    }
                    if any {
                        out.push(' ');
                        proof {
                            reveal_strlit(" ");
                            assert(out@ == join_space(parts) + " "@);
                        }
                    }
                    append_chars(&mut out, child.as_slice());
                    any = true;
                    proof {
                        parts = parts.push(child@);
                    }
                }
                i = i + 1;
            }
            proof {
                assert(fields@.take(fields@.len() as int) == fields@);
            }
            out
        },
        _ => Vec::new(),
    }
}

impl State {
    /// Flatten string leaves for language / script detection.
    pub fn flat_text(&self) -> (r: String)
        ensures
            r@ == flat_text_of(*self),
    {
        match self {
            State::Text(s) => s.clone(),
            State::Object(j) => {
                let cs = flatten_value(&j.value, 0);
                string_of(cs.as_slice())
            },
            State::Array(j) => {
                let cs = flatten_value(&j.value, 0);
                string_of(cs.as_slice())
            },
        }
    }

    /// Serialize for the model state segment.
    pub fn model_text(&self) -> (r: Result<String>)
        ensures
            r matches Ok(t) && t@ == model_text_of(*self),
    {
        match self {
            State::Text(s) => Ok(s.clone()),
            State::Object(j) => Ok(j.text.clone()),
            State::Array(j) => Ok(j.text.clone()),
        }
    }
}

/// Render instructions to text for packing / prompts.
pub fn instructions_text(instructions: &Instructions) -> (r: String)
    ensures
        r@ == json_text(*instructions),
{
    match &instructions.value {
        JsonValue::Str(s) => s.clone(),
        _ => instructions.text.clone(),
    }
}

/// Render a criterion gloss (string or structured JSON) to prompt text.
pub fn criterion_text(value: &Json) -> (r: String)
    ensures
        r@ == json_text(*value),
{
    match &value.value {
        JsonValue::Str(s) => s.clone(),
        _ => value.text.clone(),
    }
}

// ---------------------------------------------------------------------------
// Questions
// ---------------------------------------------------------------------------

/// Typed criteria payload, validated against [`DecisionKind`].
#[derive(Debug, Clone, PartialEq)]
pub enum Criteria {
    /// Choice: ordered option key → optional description (`None` = key only).
    Choice(IndexMap<String, Option<Json>>),
    /// Score: ordered level descriptions.
    Score(Vec<Json>),
    /// Noul: optional true/false glosses.
    Noul {
        /// Gloss for true.
        true_gloss: Option<Json>,
        /// Gloss for false.
        false_gloss: Option<Json>,
    },
}

/// One typed question (its id is the key in [`SystemOneRequest::questions`]).
#[derive(Debug, Clone, PartialEq)]
pub struct Question {
    /// Primitive kind.
    pub type_: DecisionKind,
    /// Statement or question text (string or structured JSON).
    pub instructions: Instructions,
    /// Type-specific criteria.
    pub criteria: Option<Criteria>,
}

/// Most options a choice question accepts.
pub const MAX_CHOICE_OPTIONS: usize = 255;

/// Why a question is invalid, or `None` when it is valid.
pub open spec fn question_problem(q: Question) -> Option<Seq<char>> {
    if trim(json_text(q.instructions)).len() == 0 {
        Some("instructions must be non-empty"@)
    } else {
        match q.type_ {
            DecisionKind::Choice => match q.criteria {
                Some(Criteria::Choice(opts)) if option_entries(opts).len() > 0 => {
                    let entries = option_entries(opts);
                    if entries.len() > MAX_CHOICE_OPTIONS {
                        Some("choice criteria accept at most 255 options"@)
                    } else if exists|k: int|
                        0 <= k < entries.len() && #[trigger] trim(entries[k].0@).len() == 0 {
                        Some("choice option keys must be non-empty"@)
                    } else {
                        None
                    }
                },
                _ => Some("choice questions require a non-empty criteria object"@),
            },
            DecisionKind::Score => match q.criteria {
                Some(Criteria::Score(levels)) if levels@.len() >= 2 => None,
                _ => Some("score questions require a criteria array with at least 2 levels"@),
            },
            DecisionKind::Noul => match q.criteria {
                None => None,
                Some(Criteria::Noul { .. }) => None,
                Some(_) => Some(
                    "noul criteria must be omitted or an object with true/false glosses"@,
                ),
            },
        }
    }
}

/// The error an invalid question is rejected with.
pub open spec fn is_invalid_with(e: Error, reason: Seq<char>) -> bool {
    e matches Error::InvalidQuestion { id, reason: r } && id@ == Seq::<char>::empty() && r@
        == reason
}

fn invalid_question(reason: &str) -> (e: Error)
    ensures
        is_invalid_with(e, reason@),
{
    Error::InvalidQuestion { id: String::new(), reason: String::from_str(reason) }
}

impl Question {
    /// Build and validate a question.
    pub fn new(type_: DecisionKind, instructions: Instructions, criteria: Option<Criteria>) -> (r:
        Result<Self>)
        ensures
            match question_problem(Question { type_, instructions, criteria }) {
                None => r == Ok::<Question, Error>(Question { type_, instructions, criteria }),
                Some(reason) => r matches Err(e) && is_invalid_with(e, reason),
            },
    {
        let q = Question { type_, instructions, criteria };
        match q.validate() {
            Ok(()) => Ok(q),
            Err(e) => Err(e),
        }
    }

    /// Validate criteria against the question type.
    pub fn validate(&self) -> (r: Result<()>)
        ensures
            match question_problem(*self) {
                None => r is Ok,
                Some(reason) => r matches Err(e) && is_invalid_with(e, reason),
            },
    {
        let ins = instructions_text(&self.instructions);
        let trimmed = trim_str(ins.as_str());
        if trimmed.len() == 0 {
            return Err(invalid_question("instructions must be non-empty"));
        }
        match self.type_ {
            DecisionKind::Choice => match &self.criteria {
                Some(Criteria::Choice(opts)) => {
                    let n = option_count(opts);
                    if n == 0 {
                        return Err(
                            invalid_question("choice questions require a non-empty criteria object"),
                        );
                    }
                    if n > MAX_CHOICE_OPTIONS {
                        return Err(invalid_question("choice criteria accept at most 255 options"));
                    }
                    let mut i: usize = 0;
                    while i < n
                        invariant
                            n == option_entries(*opts).len(),
                            0 < n <= MAX_CHOICE_OPTIONS,
                            i <= n,
                            trim(json_text(self.instructions)).len() != 0,
                            self.type_ == DecisionKind::Choice,
                            self.criteria == Some(Criteria::Choice(*opts)),
                            forall|k: int|
                                0 <= k < i ==> #[trigger] trim(option_entries(*opts)[k].0@).len()
                                    != 0,
                        decreases n - i,
                    {
                        let (key, _) = option_at(opts, i);
                        let t = trim_str(key.as_str());
                        if t.len() == 0 {
                            proof {
                                assert(trim(option_entries(*opts)[i as int].0@).len() == 0);
                            }
                            return Err(invalid_question("choice option keys must be non-empty"));
                        }
                        i = i + 1;
                    }
                    Ok(())
                },
                _ => Err(invalid_question("choice questions require a non-empty criteria object")),
            },
            DecisionKind::Score => match &self.criteria {
                Some(Criteria::Score(levels)) => {
                    if levels.len() >= 2 {
                        Ok(())
                    } else {
                        Err(
                            invalid_question(
                                "score questions require a criteria array with at least 2 levels",
                            ),
                        )
                    }
                },
                _ => Err(
                    invalid_question(
                        "score questions require a criteria array with at least 2 levels",
                    ),
                ),
            },
            DecisionKind::Noul => match &self.criteria {
                None => Ok(()),
                Some(Criteria::Noul { .. }) => Ok(()),
                Some(_) => Err(
                    invalid_question(
                        "noul criteria must be omitted or an object with true/false glosses",
                    ),
                ),
            },
        }
    }
}

/// System One request body (Jev-compatible).
#[derive(Debug, Clone, PartialEq)]
pub struct SystemOneRequest {
    /// Model id or alias (required on HTTP; set by the runtime for in-process calls).
    pub model: Option<String>,
    /// State under evaluation.
    pub state: State,
    /// Question id → question definition.
    pub questions: IndexMap<String, Question>,
}

/// Token accounting (Jev-compatible).
#[derive(Debug, Clone, Copy, PartialEq, Eq)]
pub struct TokenUsage {
    /// Input tokens.
    pub input_tokens: u32,
    /// Output tokens. Decision engines report `0`; this crate does not generate text.
    pub output_tokens: u32,
}

impl Default for TokenUsage {
    fn default() -> (r: Self)
        ensures
            r.input_tokens == 0 && r.output_tokens == 0,
    {
        TokenUsage { input_tokens: 0, output_tokens: 0 }
    }
}

// ---------------------------------------------------------------------------
// Questions from the wire
// ---------------------------------------------------------------------------

/// A gloss as the wire gives it: `null` means no gloss.
pub open spec fn gloss_of(v: Json) -> Option<Json> {
    if v.value is Null {
        None
    } else {
        Some(v)
    }
}

/// Choice entries built from object members in order, a repeated key keeping
/// its first place and taking its last value.
pub open spec fn inserted_options(fields: Seq<(String, Json)>) -> Seq<(String, Option<Json>)>
    decreases fields.len(),
{
    if fields.len() == 0 {
        Seq::empty()
    } else {
        let prev = inserted_options(fields.drop_last());
        let (k, v) = fields.last();
        match option_index(prev, k@) {
            Some(i) => prev.update(i, (prev[i].0, gloss_of(v))),
            None => prev.push((k, gloss_of(v))),
        }
    }
}

/// The gloss under the last member named `key`.
pub open spec fn member_gloss(fields: Seq<(String, Json)>, key: Seq<char>) -> Option<Json>
    decreases fields.len(),
{
    if fields.len() == 0 {
        None
    } else if fields.last().0@ == key {
        gloss_of(fields.last().1)
    } else {
        member_gloss(fields.drop_last(), key)
    }
}

/// Why raw criteria do not fit a kind on the wire, if they do not.
pub open spec fn wire_criteria_problem(kind: DecisionKind, raw: Option<Json>) -> Option<Seq<char>> {
    match kind {
        DecisionKind::Choice => match raw {
            None => Some("choice questions require criteria"@),
            Some(j) => if j.value is Object {
                None
            } else {
                Some("choice criteria must be an object"@)
            },
        },
        DecisionKind::Score => match raw {
            None => Some("score questions require criteria"@),
            Some(j) => if j.value is Array {
                None
            } else {
                Some("score criteria must be an array"@)
            },
        },
        DecisionKind::Noul => match raw {
            None => None,
            Some(j) => if j.value is Object {
                None
            } else {
                Some("noul criteria must be an object with true/false keys"@)
            },
        },
    }
}

/// `c` holds the criteria that raw wire criteria give for a kind.
pub open spec fn wire_criteria(kind: DecisionKind, raw: Option<Json>, c: Option<Criteria>) -> bool {
    match kind {
        DecisionKind::Choice => raw matches Some(j) && j.value matches JsonValue::Object(fields)
            && c matches Some(Criteria::Choice(m)) && option_entries(m) == inserted_options(
            fields@,
        ),
        DecisionKind::Score => raw matches Some(j) && j.value matches JsonValue::Array(items)
            && c == Some(Criteria::Score(items)),
        DecisionKind::Noul => match raw {
            None => c is None,
            Some(j) => j.value matches JsonValue::Object(fields) && c == Some(
                Criteria::Noul {
                    true_gloss: member_gloss(fields@, "true"@),
                    false_gloss: member_gloss(fields@, "false"@),
                },
            ),
        },
    }
}

fn gloss(v: Json) -> (r: Option<Json>)
    ensures
        r == gloss_of(v),
{
    match v.value {
        JsonValue::Null => None,
        _ => Some(v),
    }
}

fn choice_map(fields: Vec<(String, Json)>) -> (r: IndexMap<String, Option<Json>>)
    ensures
        option_entries(r) == inserted_options(fields@),
{
    let ghost all = fields@;
    let mut m = option_map_new();
    let mut n: usize = 0;
    proof {
        assert(all.take(0) =~= Seq::<(String, Json)>::empty());
    }
    for item in it: fields
        invariant
            all == it.seq(),
            option_entries(m) == inserted_options(all.take(it.index() as int)),
    {
        let (k, v) = item;
        proof {
            assert(all.take(it.index() + 1).drop_last() =~= all.take(it.index() as int));
            assert(all.take(it.index() + 1).last() == (k, v));
        }
        let g = gloss(v);
        option_insert(&mut m, k, g);
    }
    proof {
        assert(all.take(all.len() as int) =~= all);
    }
    m
}

impl Question {
    /// Build a question from its wire parts: the kind decides which shape
    /// the raw criteria must have, then the question is validated. The error
    /// is the message a decoder reports.
    #[verifier::rlimit(30)]
    pub fn from_wire(type_: DecisionKind, instructions: Instructions, criteria: Option<Json>) -> (r:
        core::result::Result<Question, String>)
        ensures
            match wire_criteria_problem(type_, criteria) {
                Some(m) => r matches Err(e) && e@ == m,
                None => match r {
                    Ok(q) => q.type_ == type_ && q.instructions == instructions && wire_criteria(
                        type_,
                        criteria,
                        q.criteria,
                    ) && question_problem(q) is None,
                    Err(e) => exists|c: Option<Criteria>|
                        wire_criteria(type_, criteria, c) && (question_problem(
                            Question { type_, instructions, criteria: c },
                        ) matches Some(reason) && e@ == "invalid question ``: "@ + reason),
                },
            },
    {
        let crit: Option<Criteria> = match type_ {
            DecisionKind::Choice => match criteria {
                None => {
                    return Err(String::from_str("choice questions require criteria"));
                },
                Some(j) => match j.value {
                    JsonValue::Object(fields) => Some(Criteria::Choice(choice_map(fields))),
                    _ => {
                        return Err(String::from_str("choice criteria must be an object"));
                    },
                },
            },
            DecisionKind::Score => match criteria {
                None => {
                    return Err(String::from_str("score questions require criteria"));
                },
                Some(j) => match j.value {
                    JsonValue::Array(items) => Some(Criteria::Score(items)),
                    _ => {
                        return Err(String::from_str("score criteria must be an array"));
                    },
                },
            },
            DecisionKind::Noul => match criteria {
                None => None,
                Some(j) => match j.value {
                    JsonValue::Object(fields) => {
                        let ghost fv = fields@;
                        let mut true_gloss: Option<Json> = None;
                        let mut false_gloss: Option<Json> = None;
                        proof {
                            assert(fv.take(0) =~= Seq::<(String, Json)>::empty());
                        }
                        for item in it: fields
                            invariant
                                fv == it.seq(),
                                true_gloss == member_gloss(fv.take(it.index() as int), "true"@),
                                false_gloss == member_gloss(fv.take(it.index() as int), "false"@),
                        {
                            let (k, v) = item;
                            proof {
                                reveal_strlit("true");
                                reveal_strlit("false");
                                assert(fv.take(it.index() + 1).drop_last() =~= fv.take(
                                    it.index() as int,
                                ));
                                assert(fv.take(it.index() + 1).last() == (k, v));
                            }
                            if crate::text::str_eq(k.as_str(), "true") {
                                proof {
                                    assert("true"@ != "false"@) by {
                                        reveal_strlit("true");
                                        reveal_strlit("false");
                                        assert("true"@.len() != "false"@.len());
                                    }
                                    assert(member_gloss(fv.take(it.index() + 1), "false"@)
                                        == member_gloss(fv.take(it.index() as int), "false"@));
                                }
                                true_gloss = gloss(v);
                            } else if crate::text::str_eq(k.as_str(), "false") {
                                false_gloss = gloss(v);
                            }
                        }
                        proof {
                            assert(fv.take(fv.len() as int) =~= fv);
                        }
                        Some(Criteria::Noul { true_gloss, false_gloss })
                    },
                    _ => {
                        return Err(
                            String::from_str("noul criteria must be an object with true/false keys"),
                        );
                    },
                },
            },
        };
        let ghost c = crit;
        assert(wire_criteria(type_, criteria, c));
        let q = Question { type_, instructions, criteria: crit };
        match q.validate() {
            Ok(()) => Ok(q),
            Err(e) => {
                let m = e.message();
                proof {
                    reveal_strlit("invalid question `");
                    reveal_strlit("`: ");
                    reveal_strlit("invalid question ``: ");
                    let reason = question_problem(q)->0;
                    assert(m@ =~= "invalid question ``: "@ + reason);
                }
                Err(m)
            },
        }
    }
}

} // verus!

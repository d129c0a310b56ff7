//! Checkpoint router — selection only, no model load.

use vstd::prelude::*;

use crate::detect::{analyse, analysis_of, Detection};
use crate::error::Result;
use crate::index_map::{question_at, question_count, question_entries};
use crate::route::{checkpoint_name, parse_checkpoint, CheckpointId, RouteDecision};
use crate::schema::{flat_text_of, SystemOneRequest};
use crate::text::{
    append_chars, append_str, ascii_lowercase, ascii_lowercase_chars, chars_eq_str, chars_of,
    debug_quoted, debug_str, decimal, push_decimal, str_eq, string_of,
};

verus! {

// ---------------------------------------------------------------------------
// Typed-decisions workflows
// ---------------------------------------------------------------------------

/// Number of typed-decisions workflows whose question ids the router knows.
pub const WORKFLOW_COUNT: usize = 4;

/// Name of workflow `i`.
pub open spec fn workflow_name(i: int) -> Seq<char> {
    if i == 0 {
        "customer_service"@
    } else if i == 1 {
        "invoice_processing"@
    } else if i == 2 {
        "security_incidents"@
    } else {
        "agent_trace_observability"@
    }
}

/// Question ids of workflow `i`.
pub open spec fn workflow_ids(i: int) -> Seq<Seq<char>> {
    if i == 0 {
        seq!["action"@, "category"@, "churn_risk"@, "needs_human"@, "urgency"@]
    } else if i == 1 {
        seq![
            "discrepancy_severity"@,
            "disposition"@,
            "duplicate"@,
            "matches_order"@,
            "urgency"@,
        ]
    } else if i == 2 {
        seq![
            "credential_compromise"@,
            "disposition"@,
            "severity"@,
            "true_positive"@,
            "urgency"@,
        ]
    } else {
        seq!["action"@, "needs_review"@, "outcome"@, "risk"@, "urgency"@]
    }
}

/// The first workflow, from index `i` on, whose id set equals the set of `ids`.
pub open spec fn matched_workflow_from(ids: Seq<Seq<char>>, i: int) -> Option<int>
    decreases WORKFLOW_COUNT - i,
{
    if i < 0 || i >= WORKFLOW_COUNT {
        None
    } else if ids.to_set() == workflow_ids(i).to_set() {
        Some(i)
    } else {
        matched_workflow_from(ids, i + 1)
    }
}

/// The first workflow whose id set equals the set of `ids`.
pub open spec fn matched_workflow(ids: Seq<Seq<char>>) -> Option<int> {
    matched_workflow_from(ids, 0)
}

/// Views of a list of texts.
pub open spec fn str_views(list: Seq<&str>) -> Seq<Seq<char>> {
    list.map_values(|w: &str| w@)
}

fn workflow(i: usize) -> (r: (&'static str, Vec<&'static str>))
    requires
        i < WORKFLOW_COUNT,
    ensures
        r.0@ == workflow_name(i as int),
        str_views(r.1@) == workflow_ids(i as int),
{
    let r = if i == 0 {
        ("customer_service", vec!["action", "category", "churn_risk", "needs_human", "urgency"])
    } else if i == 1 {
        (
            "invoice_processing",
            vec!["discrepancy_severity", "disposition", "duplicate", "matches_order", "urgency"],
        )
    } else if i == 2 {
        (
            "security_incidents",
            vec!["credential_compromise", "disposition", "severity", "true_positive", "urgency"],
        )
    } else {
        ("agent_trace_observability", vec!["action", "needs_review", "outcome", "risk", "urgency"])
    };
    proof {
        assert(str_views(r.1@) =~= workflow_ids(i as int));
    }
    r
}

fn contains_text(list: &[&str], s: &str) -> (r: bool)
    ensures
        r == str_views(list@).contains(s@),
{
    let mut i: usize = 0;
    while i < list.len()
        invariant
            i <= list@.len(),
            forall|k: int| 0 <= k < i ==> list@[k]@ != s@,
        decreases list@.len() - i,
    {
        if str_eq(list[i], s) {
            proof {
                assert(str_views(list@)[i as int] == s@);
            }
            return true;
        }
        i = i + 1;
    }
    proof {
        if str_views(list@).contains(s@) {
            let k = choose|k: int| 0 <= k < str_views(list@).len() && str_views(list@)[k] == s@;
            assert(list@[k]@ == s@);
        }
    }
    false
}

fn all_contained(a: &[&str], b: &[&str]) -> (r: bool)
    ensures
        r == forall|k: int|
            0 <= k < a@.len() ==> str_views(b@).contains(#[trigger] str_views(a@)[k]),
{
    let mut i: usize = 0;
    while i < a.len()
        invariant
            i <= a@.len(),
            forall|k: int| 0 <= k < i ==> str_views(b@).contains(#[trigger] str_views(a@)[k]),
        decreases a@.len() - i,
    {
        let found = contains_text(b, a[i]);
        proof {
            assert(str_views(a@)[i as int] == a@[i as int]@);
        }
        if !found {
            return false;
        }
        i = i + 1;
    }
    true
}

proof fn lemma_same_set(a: Seq<Seq<char>>, b: Seq<Seq<char>>)
    ensures
        (a.to_set() == b.to_set()) == ((forall|k: int| 0 <= k < a.len() ==> b.contains(#[trigger] a[k]))
            && (forall|k: int| 0 <= k < b.len() ==> a.contains(#[trigger] b[k]))),
{
    if (forall|k: int| 0 <= k < a.len() ==> b.contains(#[trigger] a[k])) && (forall|k: int|
        0 <= k < b.len() ==> a.contains(#[trigger] b[k])) {
        assert forall|x: Seq<char>| a.to_set().contains(x) == b.to_set().contains(x) by {
            if a.contains(x) {
                let k = choose|k: int| 0 <= k < a.len() && a[k] == x;
                assert(b.contains(a[k]));
            }
            if b.contains(x) {
                let k = choose|k: int| 0 <= k < b.len() && b[k] == x;
                assert(a.contains(b[k]));
            }
        }
        assert(a.to_set() =~= b.to_set());
    }
    if a.to_set() == b.to_set() {
        assert forall|k: int| 0 <= k < a.len() implies b.contains(#[trigger] a[k]) by {
            assert(a.to_set().contains(a[k]));
        }
        assert forall|k: int| 0 <= k < b.len() implies a.contains(#[trigger] b[k]) by {
            assert(b.to_set().contains(b[k]));
        }
    }
}

/// Name of the typed-decisions workflow whose question ids are exactly `ids`
/// (as a set), trying the workflows in order.
fn match_typed_decisions_workflow(ids: &[&str]) -> (r: Option<&'static str>)
    ensures
        match matched_workflow(str_views(ids@)) {
            Some(i) => r matches Some(n) && n@ == workflow_name(i),
            None => r is None,
        },
{
    let ghost v = str_views(ids@);
    let mut i: usize = 0;
    while i < WORKFLOW_COUNT
        invariant
            i <= WORKFLOW_COUNT,
            v == str_views(ids@),
            matched_workflow(v) == matched_workflow_from(v, i as int),
        decreases WORKFLOW_COUNT - i,
    {
        let (name, sig) = workflow(i);
        let there = all_contained(ids, sig.as_slice());
        let back = all_contained(sig.as_slice(), ids);
        proof {
            let w = workflow_ids(i as int);
            lemma_same_set(v, w);
            assert(w == str_views(sig@));
        }
        if there && back {
            return Some(name);
        }
        i = i + 1;
    }
    None
}

// ---------------------------------------------------------------------------
// Language tags
// ---------------------------------------------------------------------------

/// The part of a tag before its first `-` (the whole tag when it has none).
pub open spec fn first_segment(s: Seq<char>) -> Seq<char>
    decreases s.len(),
{
    if s.len() == 0 || s[0] == '-' {
        Seq::empty()
    } else {
        seq![s[0]] + first_segment(s.drop_first())
    }
}

/// Whether a language tag names English: `en`, `eng` or `english`, or a
/// primary subtag `en` (`en-US`), in any ASCII case.
pub open spec fn names_english(lang: Seq<char>) -> bool {
    let key = ascii_lowercase(lang);
    key == "en"@ || key == "eng"@ || key == "english"@ || first_segment(key) == "en"@
}

proof fn lemma_first_segment(s: Seq<char>, j: int)
    requires
        0 <= j <= s.len(),
        forall|k: int| 0 <= k < j ==> s[k] != '-',
        j == s.len() || s[j] == '-',
    ensures
        first_segment(s) == s.take(j),
    decreases j,
{
    if j == 0 {
        assert(s.take(0) =~= Seq::<char>::empty());
    } else {
        lemma_first_segment(s.drop_first(), j - 1);
        assert(s.take(j) =~= seq![s[0]] + s.drop_first().take(j - 1));
    }
}

fn lang_is_english(lang: &str) -> (r: bool)
    ensures
        r == names_english(lang@),
{
    let key = ascii_lowercase_chars(chars_of(lang).as_slice());
    let k = key.as_slice();
    if chars_eq_str(k, "en") || chars_eq_str(k, "eng") || chars_eq_str(k, "english") {
        return true;
    }
    let mut j: usize = 0;
    while j < k.len() && k[j] != '-'
        invariant
            j <= k@.len(),
            forall|i: int| 0 <= i < j ==> k@[i] != '-',
        decreases k@.len() - j,
    {
        j = j + 1;
    }
    proof {
        lemma_first_segment(k@, j as int);
    }
    let mut head: Vec<char> = Vec::new();
    let mut i: usize = 0;
    while i < j
        invariant
            j <= k@.len(),
            i <= j,
            head@ == k@.take(i as int),
        decreases j - i,
    {
        proof {
            assert(k@.take(i + 1) =~= k@.take(i as int).push(k@[i as int]));
        }
        head.push(k[i]);
        i = i + 1;
    }
    chars_eq_str(head.as_slice(), "en")
}

// ---------------------------------------------------------------------------
// Routing by detection
// ---------------------------------------------------------------------------

/// `100 * part / whole`, rounded to the nearest whole percent (ties to even).
pub open spec fn percent(part: nat, whole: nat) -> nat {
    let q = (100 * part) / whole;
    let r = (100 * part) % whole;
    if 2 * r > whole || (2 * r == whole && q % 2 == 1) {
        q + 1
    } else {
        q
    }
}

/// Counts of a detection that fit together: no more non-Latin letters than
/// letters, and letters whenever a script was named.
pub open spec fn detection_consistent(d: Detection) -> bool {
    &&& d.non_latin_letters <= d.letters
    &&& d.script@ != "unknown"@ ==> d.letters > 0
}

/// Checkpoint and reason chosen from detection evidence.
pub open spec fn detection_route(d: Detection, default: CheckpointId) -> (CheckpointId, Seq<char>) {
    if d.script@ == "unknown"@ {
        (
            default,
            "no letters detected in state; using default ("@ + checkpoint_name(default) + ")"@,
        )
    } else if d.script@ != "latin"@ {
        (
            CheckpointId::Multilingual,
            "non-Latin script ("@ + d.script@ + ", "@ + decimal(
                percent(d.non_latin_letters as nat, d.letters as nat),
            ) + "% of letters); the English checkpoint cannot read it"@,
        )
    } else if !d.is_english {
        (
            CheckpointId::Multilingual,
            "Latin script but language looks like "@ + debug_quoted(d.language@) + ", not English"@,
        )
    } else {
        (CheckpointId::English, "English Latin text"@)
    }
}

proof fn lemma_analysis_consistent(text: Seq<char>, d: Detection)
    requires
        analysis_of(text, d),
    ensures
        detection_consistent(d),
{
    crate::detect::lemma_detected_script_letters(text);
}

fn percent_of(part: usize, whole: usize) -> (r: usize)
    requires
        part <= whole,
        whole > 0,
    ensures
        r as nat == percent(part as nat, whole as nat),
{
    let x: u128 = 100u128 * (part as u128);
    let w: u128 = whole as u128;
    let q: u128 = x / w;
    let r: u128 = x % w;
    assert(q <= 100) by (nonlinear_arith)
        requires
            x == 100 * part,
            part <= whole,
            w == whole,
            whole > 0,
            q == x / w,
    {
        assert(x <= 100 * w);
    }
    let rounded: u128 = if 2 * r > w || (2 * r == w && q % 2 == 1) {
        q + 1
    } else {
        q
    };
    rounded as usize
}

/// Route from detection evidence alone.
pub fn route_from_detection(detection: Detection, default: CheckpointId) -> (r: RouteDecision)
    requires
        detection_consistent(detection),
    ensures
        (r.model, r.reason@) == detection_route(detection, default),
        r.detection == Some(detection),
{
    let mut text: Vec<char> = Vec::new();
    if str_eq(detection.script.as_str(), "unknown") {
        append_str(&mut text, "no letters detected in state; using default (");
        append_str(&mut text, default.as_str());
        append_str(&mut text, ")");
        return RouteDecision {
            model: default,
            reason: string_of(text.as_slice()),
            detection: Some(detection),
        };
    }
    if !str_eq(detection.script.as_str(), "latin") {
        let pct = percent_of(detection.non_latin_letters, detection.letters);
        append_str(&mut text, "non-Latin script (");
        append_str(&mut text, detection.script.as_str());
        append_str(&mut text, ", ");
        push_decimal(&mut text, pct);
        append_str(&mut text, "% of letters); the English checkpoint cannot read it");
        return RouteDecision {
            model: CheckpointId::Multilingual,
            reason: string_of(text.as_slice()),
            detection: Some(detection),
        };
    }
    if !detection.is_english {
        let quoted = debug_str(detection.language.as_str());
        append_str(&mut text, "Latin script but language looks like ");
        append_str(&mut text, quoted.as_str());
        append_str(&mut text, ", not English");
        return RouteDecision {
            model: CheckpointId::Multilingual,
            reason: string_of(text.as_slice()),
            detection: Some(detection),
        };
    }
    RouteDecision {
        model: CheckpointId::English,
        reason: String::from_str("English Latin text"),
        detection: Some(detection),
    }
}

// ---------------------------------------------------------------------------
// Router
// ---------------------------------------------------------------------------

/// Pure router over detection + explicit overrides.
#[derive(Debug, Clone, Copy)]
pub struct Router {
    /// Fallback when detection is inconclusive.
    pub default: CheckpointId,
    /// When true, exact typed-decisions workflow id sets may select that checkpoint.
    pub auto_task_detection: bool,
}

impl Default for Router {
    fn default() -> (r: Self)
        ensures
            r.default == CheckpointId::English,
            !r.auto_task_detection,
    {
        Router { default: CheckpointId::English, auto_task_detection: false }
    }
}

/// The explicit model name: the argument, else the request's own field.
pub open spec fn explicit_model(model: Option<Seq<char>>, request_model: Option<String>) -> Option<
    Seq<char>,
> {
    match model {
        Some(m) => Some(m),
        None => match request_model {
            Some(s) => Some(s@),
            None => None,
        },
    }
}

/// Question ids of a request, in order.
pub open spec fn question_ids(request: SystemOneRequest) -> Seq<Seq<char>> {
    question_entries(request.questions).map_values(|e: (String, crate::schema::Question)| e.0@)
}

/// The checkpoint and reason chosen before detection is consulted, in order
/// of precedence: an explicit model that parses as a checkpoint, an exact
/// typed-decisions workflow (when enabled), an explicit language. `None` when
/// none applies and the state's detection decides.
pub open spec fn route_override(
    router: Router,
    explicit: Option<Seq<char>>,
    ids: Seq<Seq<char>>,
    lang: Option<Seq<char>>,
) -> Option<(CheckpointId, Seq<char>)> {
    if explicit is Some && parse_checkpoint(explicit->0) is Some {
        Some((parse_checkpoint(explicit->0)->0, "explicit model="@ + debug_quoted(explicit->0)))
    } else if router.auto_task_detection && matched_workflow(ids) is Some {
        Some(
            (
                CheckpointId::TypedDecisions,
                "question ids match the \""@ + workflow_name(matched_workflow(ids)->0)
                    + "\" typed-decisions workflow"@,
            ),
        )
    } else if lang is Some {
        Some(
            (
                if names_english(lang->0) {
                    CheckpointId::English
                } else {
                    CheckpointId::Multilingual
                },
                "explicit lang="@ + debug_quoted(lang->0),
            ),
        )
    } else {
        None
    }
}

fn quoted_reason(prefix: &str, value: &str, suffix: &str) -> (r: String)
    ensures
        r@ == prefix@ + value@ + suffix@,
{
    let mut text: Vec<char> = Vec::new();
    append_str(&mut text, prefix);
    append_str(&mut text, value);
    append_str(&mut text, suffix);
    string_of(text.as_slice())
}

impl Router {
    /// Decide which checkpoint should answer `request`.
    ///
    /// `model` overrides [`SystemOneRequest::model`] when provided.
    #[verifier::rlimit(30)]
    pub fn route(&self, request: &SystemOneRequest, model: Option<&str>, lang: Option<&str>) -> (r:
        Result<RouteDecision>)
        ensures
            r matches Ok(d) && match route_override(
                *self,
                explicit_model(
                    match model {
                        Some(m) => Some(m@),
                        None => None,
                    },
                    request.model,
                ),
                question_ids(*request),
                match lang {
                    Some(l) => Some(l@),
                    None => None,
                },
            ) {
                Some((id, why)) => d.model == id && d.reason@ == why && d.detection is None,
                None => d.detection matches Some(det) && analysis_of(
                    flat_text_of(request.state),
                    det,
                ) && (d.model, d.reason@) == detection_route(det, self.default),
            },
    {
        let explicit: Option<&str> = match model {
            Some(m) => Some(m),
            None => match &request.model {
                Some(s) => Some(s.as_str()),
                None => None,
            },
        };
        if let Some(name) = explicit {
            if let Some(id) = CheckpointId::parse(name) {
                let quoted = debug_str(name);
                proof {
                    reveal_strlit("");
                    assert("explicit model="@ + quoted@ + ""@ =~= "explicit model="@ + quoted@);
                }
                return Ok(
                    RouteDecision {
                        model: id,
                        reason: quoted_reason("explicit model=", quoted.as_str(), ""),
                        detection: None,
                    },
                );
            }
        }
        if self.auto_task_detection {
            let n = question_count(&request.questions);
            let ghost entries = question_entries(request.questions);
            let mut ids: Vec<&str> = Vec::new();
            let mut i: usize = 0;
            while i < n
                invariant
                    n == entries.len(),
                    entries == question_entries(request.questions),
                    i <= n,
                    str_views(ids@) == entries.take(i as int).map_values(
                        |e: (String, crate::schema::Question)| e.0@,
                    ),
                decreases n - i,
            {
                let (key, _) = question_at(&request.questions, i);
                let ghost prev = ids@;
                ids.push(key.as_str());
                proof {
                    assert(str_views(ids@) =~= str_views(prev).push(entries[i as int].0@));
                    assert(entries.take(i + 1).map_values(
                        |e: (String, crate::schema::Question)| e.0@,
                    ) =~= entries.take(i as int).map_values(
                        |e: (String, crate::schema::Question)| e.0@,
                    ).push(entries[i as int].0@));
                }
                i = i + 1;
            }
            proof {
                assert(entries.take(n as int) =~= entries);
            }
            if let Some(wf) = match_typed_decisions_workflow(ids.as_slice()) {
                return Ok(
                    RouteDecision {
                        model: CheckpointId::TypedDecisions,
                        reason: quoted_reason(
                            "question ids match the \"",
                            wf,
                            "\" typed-decisions workflow",
                        ),
                        detection: None,
                    },
                );
            }
        }
        if let Some(lang) = lang {
            let id = if lang_is_english(lang) {
                CheckpointId::English
            } else {
                CheckpointId::Multilingual
            };
            let quoted = debug_str(lang);
            proof {
                reveal_strlit("");
                assert("explicit lang="@ + quoted@ + ""@ =~= "explicit lang="@ + quoted@);
            }
            return Ok(
                RouteDecision {
                    model: id,
                    reason: quoted_reason("explicit lang=", quoted.as_str(), ""),
                    detection: None,
                },
            );
        }
        let detection = analyse(&request.state);
        proof {
            lemma_analysis_consistent(flat_text_of(request.state), detection);
        }
        Ok(route_from_detection(detection, self.default))
    }
}

// ---------------------------------------------------------------------------
// Laws
// ---------------------------------------------------------------------------

/// An explicit model given by a checkpoint's wire name selects that
/// checkpoint, whatever the question ids, the language or the state.
pub proof fn lemma_explicit_checkpoint_wins(
    router: Router,
    id: CheckpointId,
    ids: Seq<Seq<char>>,
    lang: Option<Seq<char>>,
)
    ensures
        route_override(router, Some(checkpoint_name(id)), ids, lang) matches Some((chosen, _))
            && chosen == id,
{
    crate::route::lemma_checkpoint_name_roundtrip(id);
}

/// Detection sends text to the English checkpoint only when it is Latin text
/// judged English, or when no script was named and English is the default.
pub proof fn lemma_detection_english_only_for_english(d: Detection, default: CheckpointId)
    ensures
        detection_route(d, default).0 == CheckpointId::English ==> (d.script@ == "latin"@
            && d.is_english) || (d.script@ == "unknown"@ && default == CheckpointId::English),
{
}

proof fn lemma_matched_workflow_from(ids: Seq<Seq<char>>, i: int)
    requires
        0 <= i <= WORKFLOW_COUNT,
    ensures
        matched_workflow_from(ids, i) matches Some(j) ==> i <= j < WORKFLOW_COUNT
            && ids.to_set() == workflow_ids(j).to_set() && forall|k: int|
            i <= k < j ==> ids.to_set() != #[trigger] workflow_ids(k).to_set(),
        matched_workflow_from(ids, i) is None ==> forall|k: int|
            i <= k < WORKFLOW_COUNT ==> ids.to_set() != #[trigger] workflow_ids(k).to_set(),
    decreases WORKFLOW_COUNT - i,
{
    if i < WORKFLOW_COUNT {
        lemma_matched_workflow_from(ids, i + 1);
    }
}

/// A request names a typed-decisions workflow only when its question ids, as
/// a set, are exactly that workflow's ids: extra or missing ids match nothing.
/// The workflows are tried in order, so an earlier one with the same id set
/// would win; when none has exactly the request's ids, none matches. The
/// customer-service ids `action`, `category`, `churn_risk`, `needs_human`,
/// `urgency` name the `customer_service` workflow.
pub proof fn lemma_workflow_match_exact(ids: Seq<Seq<char>>)
    ensures
        matched_workflow(ids) matches Some(i) ==> 0 <= i < WORKFLOW_COUNT && ids.to_set()
            == workflow_ids(i).to_set() && forall|k: int|
            0 <= k < i ==> ids.to_set() != #[trigger] workflow_ids(k).to_set(),
        matched_workflow(ids) is None ==> forall|k: int|
            0 <= k < WORKFLOW_COUNT ==> ids.to_set() != #[trigger] workflow_ids(k).to_set(),
        ids.to_set() == set!["action"@, "category"@, "churn_risk"@, "needs_human"@, "urgency"@]
            ==> matched_workflow(ids) == Some(0int) && workflow_name(0) == "customer_service"@,
        ids.to_set() == set![
            "discrepancy_severity"@,
            "disposition"@,
            "duplicate"@,
            "matches_order"@,
            "urgency"@,
        ] ==> matched_workflow(ids) == Some(1int) && workflow_name(1) == "invoice_processing"@,
        ids.to_set() == set![
            "credential_compromise"@,
            "disposition"@,
            "severity"@,
            "true_positive"@,
            "urgency"@,
        ] ==> matched_workflow(ids) == Some(2int) && workflow_name(2) == "security_incidents"@,
        ids.to_set() == set!["action"@, "needs_review"@, "outcome"@, "risk"@, "urgency"@]
            ==> matched_workflow(ids) == Some(3int) && workflow_name(3)
            == "agent_trace_observability"@,
{
    lemma_matched_workflow_from(ids, 0);
    reveal_strlit("action");
    reveal_strlit("category");
    reveal_strlit("discrepancy_severity");
    reveal_strlit("credential_compromise");
    reveal_strlit("needs_review");
    reveal_strlit("disposition");
    reveal_strlit("urgency");
    reveal_strlit("churn_risk");
    reveal_strlit("needs_human");
    reveal_strlit("duplicate");
    reveal_strlit("matches_order");
    reveal_strlit("severity");
    reveal_strlit("true_positive");
    reveal_strlit("outcome");
    reveal_strlit("risk");
    assert(workflow_ids(1).to_set() =~= set![
        "discrepancy_severity"@,
        "disposition"@,
        "duplicate"@,
        "matches_order"@,
        "urgency"@,
    ]);
    assert(workflow_ids(2).to_set() =~= set![
        "credential_compromise"@,
        "disposition"@,
        "severity"@,
        "true_positive"@,
        "urgency"@,
    ]);
    assert(workflow_ids(3).to_set() =~= set!["action"@, "needs_review"@, "outcome"@, "risk"@, "urgency"@]);
    assert(workflow_ids(0).to_set() =~= set![
        "action"@,
        "category"@,
        "churn_risk"@,
        "needs_human"@,
        "urgency"@,
    ]);
    assert("discrepancy_severity"@.len() == 20 && "credential_compromise"@.len() == 21);
    assert("action"@.len() == 6 && "category"@.len() == 8 && "churn_risk"@.len() == 10
        && "needs_human"@.len() == 11 && "urgency"@.len() == 7);
    assert(!workflow_ids(0).to_set().contains("discrepancy_severity"@));
    assert(!workflow_ids(0).to_set().contains("credential_compromise"@));
    assert(!workflow_ids(1).to_set().contains("credential_compromise"@));
    assert(!workflow_ids(0).to_set().contains("needs_review"@));
    assert("needs_review"@.len() == 12 && "disposition"@.len() == 11 && "duplicate"@.len() == 9
        && "matches_order"@.len() == 13 && "severity"@.len() == 8 && "true_positive"@.len()
        == 13);
    assert(!workflow_ids(1).to_set().contains("needs_review"@));
    assert(!workflow_ids(2).to_set().contains("needs_review"@));
    assert(workflow_ids(0).to_set() =~= set![
        "action"@,
        "category"@,
        "churn_risk"@,
        "needs_human"@,
        "urgency"@,
    ]);
}

} // verus!

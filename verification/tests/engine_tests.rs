use a3s_apofasi::engine::estimate_tokens;

#[test]
fn estimate_counts_whitespace_words() {
    assert_eq!(estimate_tokens("Please refund my invoice."), 4);
    assert_eq!(estimate_tokens("  a\tb\n\nc  "), 3);
    assert_eq!(estimate_tokens("one\u{3000}two"), 2);
}

#[test]
fn estimate_is_at_least_one() {
    assert_eq!(estimate_tokens(""), 1);
    assert_eq!(estimate_tokens("   "), 1);
}

use a3s_apofasi::engine::{
    add_estimated, affirmative_cue_hits, overlap, overlap_checked, prepared_options, tokenize,
    tokenize_checked,
};
use a3s_apofasi::primitive::DecisionKind;
use a3s_apofasi::schema::{Criteria, Json, JsonValue, Question};

fn entries(t: &a3s_apofasi::engine::TokenSet) -> Vec<(String, u32)> {
    t.counts.iter().map(|(k, v)| (k.clone(), *v)).collect()
}

fn js(s: &str) -> Json {
    Json {
        value: JsonValue::Str(s.to_string()),
        text: serde_json::to_string(s).unwrap(),
    }
}

#[test]
fn tokenize_counts_lowercase_runs() {
    let t = tokenize("Refund, refund! a I REFUND now-now é x9");
    assert_eq!(
        entries(&t),
        vec![
            ("refund".to_string(), 3),
            ("now".to_string(), 2),
            ("é".to_string(), 1),
            ("x9".to_string(), 1),
        ]
    );
    assert_eq!(t.len(), 4);
    assert!(t.contains("now"));
    assert!(!t.contains("a"));
}

#[test]
fn merge_and_overlap_count_shared_tokens() {
    let state = tokenize("billed twice please refund the duplicate refund");
    let mut opt = tokenize("billing");
    opt.merge(&tokenize("refund refund refund duplicate"));
    assert_eq!(
        entries(&opt),
        vec![
            ("billing".to_string(), 1),
            ("refund".to_string(), 3),
            ("duplicate".to_string(), 1),
        ]
    );
    assert_eq!(overlap(&state, &opt), 3);
    assert_eq!(overlap(&opt, &state), 3);
    assert!(tokenize_checked("short text").is_some());
}

#[test]
fn prepared_options_report_the_question_id() {
    let q = Question {
        type_: DecisionKind::Score,
        instructions: js("Urgency"),
        criteria: Some(Criteria::Score(vec![js("low")])),
    };
    let err = prepared_options("urgency", &q).unwrap_err();
    assert_eq!(
        err.message(),
        "invalid question `urgency`: score questions require a criteria array with at least 2 levels"
    );
    let ok = Question::new(DecisionKind::Noul, js("ok?"), None).unwrap();
    let opts = prepared_options("q", &ok).unwrap();
    assert_eq!(opts[0].0, "false");
}

#[test]
fn add_estimated_saturates() {
    assert_eq!(add_estimated(10, "two words"), 12);
    assert_eq!(add_estimated(u32::MAX - 1, "a b c"), u32::MAX);
    assert_eq!(add_estimated(0, ""), 1);
}

#[test]
fn affirmative_cues_counted_once_each() {
    let state = tokenize("Please refund me, I was charged twice twice. Please!");
    assert_eq!(affirmative_cue_hits(&state), 3);
    assert_eq!(affirmative_cue_hits(&tokenize("all good here")), 0);
    assert_eq!(affirmative_cue_hits(&tokenize("Payment FAILED; fail again ASAP")), 3);
}

#[test]
fn try_merge_adds_counts() {
    let mut a = tokenize("refund the order");
    let b = tokenize("order refund refund now");
    assert!(a.try_merge(&b));
    assert_eq!(a.len(), 4);
    let state = tokenize("refund refund refund order order");
    assert_eq!(overlap(&state, &a), 5);
    assert_eq!(overlap_checked(&state, &a), Some(5));
    assert_eq!(overlap_checked(&tokenize("nothing shared"), &a), Some(0));
}

use a3s_apofasi::primitive::DecisionKind;
use a3s_apofasi::schema::{Criteria, Json, JsonValue, Question, State};
use indexmap::IndexMap;

fn js(s: &str) -> Json {
    Json {
        value: JsonValue::Str(s.to_string()),
        text: serde_json::to_string(s).unwrap(),
    }
}

#[test]
fn blank_instructions_and_option_keys_are_rejected() {
    let err = Question::new(DecisionKind::Noul, js("   "), None).unwrap_err();
    assert!(err.message().contains("non-empty"));

    let mut opts = IndexMap::new();
    opts.insert(" ".to_string(), None);
    opts.insert("billing".to_string(), None);
    let err = Question::new(
        DecisionKind::Choice,
        js("Which team?"),
        Some(Criteria::Choice(opts)),
    )
    .unwrap_err();
    assert!(err.message().contains("option keys"));
}

#[test]
fn score_needs_two_levels() {
    let err = Question::new(
        DecisionKind::Score,
        js("Urgency"),
        Some(Criteria::Score(vec![js("low")])),
    )
    .unwrap_err();
    assert_eq!(
        err.message(),
        "invalid question ``: score questions require a criteria array with at least 2 levels"
    );
}

#[test]
fn noul_rejects_choice_criteria() {
    let err = Question::new(
        DecisionKind::Noul,
        js("ok?"),
        Some(Criteria::Score(vec![js("a"), js("b")])),
    )
    .unwrap_err();
    assert!(err.message().contains("noul criteria must be omitted"));
}

fn jstr(s: &str) -> Json {
    js(s)
}

fn jnum(n: &str) -> Json {
    Json {
        value: JsonValue::Number(n.to_string()),
        text: n.to_string(),
    }
}

fn jnull() -> Json {
    Json {
        value: JsonValue::Null,
        text: "null".to_string(),
    }
}

fn jobj(fields: Vec<(&str, Json)>, text: &str) -> Json {
    Json {
        value: JsonValue::Object(fields.into_iter().map(|(k, v)| (k.to_string(), v)).collect()),
        text: text.to_string(),
    }
}

#[test]
fn flat_text_joins_string_leaves() {
    let ticket = jobj(vec![("message", jstr("refund"))], "{\"message\":\"refund\"}");
    let state = State::Object(jobj(
        vec![("ticket", ticket), ("count", jnum("3")), ("note", jstr("now"))],
        "{\"ticket\":{\"message\":\"refund\"},\"count\":3,\"note\":\"now\"}",
    ));
    assert_eq!(state.flat_text(), "refund now");
    assert_eq!(
        state.model_text().unwrap(),
        "{\"ticket\":{\"message\":\"refund\"},\"count\":3,\"note\":\"now\"}"
    );
    let arr = State::Array(Json {
        value: JsonValue::Array(vec![jstr("user: hi"), jstr("agent: hello")]),
        text: "[\"user: hi\",\"agent: hello\"]".to_string(),
    });
    assert_eq!(arr.flat_text(), "user: hi agent: hello");
}

#[test]
fn wire_choice_criteria_keep_order_and_null_glosses() {
    let raw = jobj(
        vec![("billing", jstr("Payments")), ("sales", jnull()), ("billing", jstr("Refunds"))],
        "{}",
    );
    let q = Question::from_wire(DecisionKind::Choice, js("Which team?"), Some(raw)).unwrap();
    match q.criteria {
        Some(Criteria::Choice(map)) => {
            let keys: Vec<&String> = map.keys().collect();
            assert_eq!(keys, ["billing", "sales"]);
            assert_eq!(map["billing"].as_ref().unwrap().text, "\"Refunds\"");
            assert!(map["sales"].is_none());
        }
        other => panic!("unexpected {other:?}"),
    }
}

#[test]
fn wire_criteria_shapes_are_checked() {
    let err = Question::from_wire(DecisionKind::Choice, js("x"), None).unwrap_err();
    assert_eq!(err, "choice questions require criteria");
    let err = Question::from_wire(DecisionKind::Choice, js("x"), Some(jstr("a"))).unwrap_err();
    assert_eq!(err, "choice criteria must be an object");
    let err = Question::from_wire(DecisionKind::Score, js("x"), Some(jobj(vec![], "{}"))).unwrap_err();
    assert_eq!(err, "score criteria must be an array");
    let err = Question::from_wire(DecisionKind::Noul, js("x"), Some(jstr("a"))).unwrap_err();
    assert_eq!(err, "noul criteria must be an object with true/false keys");
    let err = Question::from_wire(DecisionKind::Noul, js(" "), None).unwrap_err();
    assert_eq!(err, "invalid question ``: instructions must be non-empty");
}

#[test]
fn wire_noul_glosses() {
    let raw = jobj(
        vec![("true", jstr("Explicitly time-sensitive")), ("false", jnull())],
        "{}",
    );
    let q = Question::from_wire(DecisionKind::Noul, js("Urgent?"), Some(raw)).unwrap();
    match q.criteria {
        Some(Criteria::Noul { true_gloss, false_gloss }) => {
            assert_eq!(true_gloss.unwrap().text, "\"Explicitly time-sensitive\"");
            assert!(false_gloss.is_none());
        }
        other => panic!("unexpected {other:?}"),
    }
}

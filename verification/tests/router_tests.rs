use a3s_apofasi::detect::Detection;
use a3s_apofasi::primitive::DecisionKind;
use a3s_apofasi::route::CheckpointId;
use a3s_apofasi::router::{route_from_detection, Router};
use a3s_apofasi::schema::{Criteria, Json, JsonValue, Question, State, SystemOneRequest};
use indexmap::IndexMap;

fn js(s: &str) -> Json {
    Json {
        value: JsonValue::Str(s.to_string()),
        text: serde_json::to_string(s).unwrap(),
    }
}

fn sample_req(state: State) -> SystemOneRequest {
    let mut opts = IndexMap::new();
    opts.insert("billing".to_string(), None);
    let mut questions = IndexMap::new();
    questions.insert(
        "department".to_string(),
        Question::new(
            DecisionKind::Choice,
            js("dept?"),
            Some(Criteria::Choice(opts)),
        )
        .unwrap(),
    );
    SystemOneRequest {
        model: None,
        state,
        questions,
    }
}

fn noul_req(ids: &[&str]) -> SystemOneRequest {
    let mut questions = IndexMap::new();
    for id in ids {
        questions.insert(
            id.to_string(),
            Question::new(DecisionKind::Noul, js("ok?"), None).unwrap(),
        );
    }
    SystemOneRequest {
        model: None,
        state: State::Text("Please refund the duplicate charge.".into()),
        questions,
    }
}

#[test]
fn routes_english_to_english() {
    let req = sample_req(State::Text("Please refund the duplicate charge.".into()));
    let decision = Router::default().route(&req, None, None).unwrap();
    assert_eq!(decision.model, CheckpointId::English);
}

#[test]
fn routes_chinese_to_multilingual() {
    let req = sample_req(State::Text("请马上退款，否则取消订阅。".into()));
    let decision = Router::default().route(&req, None, None).unwrap();
    assert_eq!(decision.model, CheckpointId::Multilingual);
}

#[test]
fn explicit_override() {
    let req = sample_req(State::Text("hello".into()));
    let decision = Router::default()
        .route(&req, Some("typed-decisions"), None)
        .unwrap();
    assert_eq!(decision.model, CheckpointId::TypedDecisions);
}

#[test]
fn explicit_model_reason_quotes_the_name() {
    let req = sample_req(State::Text("hello".into()));
    let decision = Router::default().route(&req, Some(" ML "), Some("en")).unwrap();
    assert_eq!(decision.model, CheckpointId::Multilingual);
    assert_eq!(decision.reason, "explicit model=\" ML \"");
    assert!(decision.detection.is_none());
}

#[test]
fn unknown_model_falls_through_to_language() {
    let mut req = sample_req(State::Text("hello".into()));
    req.model = Some("apofasi-0.1.2-custom".to_string());
    let decision = Router::default().route(&req, None, Some("EN-gb")).unwrap();
    assert_eq!(decision.model, CheckpointId::English);
    assert_eq!(decision.reason, "explicit lang=\"EN-gb\"");
    let decision = Router::default().route(&req, None, Some("de")).unwrap();
    assert_eq!(decision.model, CheckpointId::Multilingual);
}

#[test]
fn request_model_is_used_when_no_argument() {
    let mut req = sample_req(State::Text("hello".into()));
    req.model = Some("english".to_string());
    let decision = Router::default().route(&req, None, Some("de")).unwrap();
    assert_eq!(decision.model, CheckpointId::English);
}

#[test]
fn workflow_ids_select_typed_decisions_when_enabled() {
    let req = noul_req(&["urgency", "needs_human", "action", "churn_risk", "category"]);
    let router = Router {
        default: CheckpointId::English,
        auto_task_detection: true,
    };
    let decision = router.route(&req, None, None).unwrap();
    assert_eq!(decision.model, CheckpointId::TypedDecisions);
    assert_eq!(
        decision.reason,
        "question ids match the \"customer_service\" typed-decisions workflow"
    );
    let off = Router::default().route(&req, None, None).unwrap();
    assert_eq!(off.model, CheckpointId::English);
    let partial = noul_req(&["urgency", "action"]);
    assert_eq!(
        router.route(&partial, None, None).unwrap().model,
        CheckpointId::English
    );
}

#[test]
fn english_text_reason_and_evidence() {
    let req = sample_req(State::Text("Please refund the duplicate charge.".into()));
    let decision = Router::default().route(&req, None, None).unwrap();
    assert_eq!(decision.reason, "English Latin text");
    let d = decision.detection.unwrap();
    assert_eq!(d.script, "latin");
    assert!(d.is_english);
}

#[test]
fn detection_reasons() {
    let unknown = Detection {
        script: "unknown".to_string(),
        non_latin_letters: 0,
        letters: 0,
        language: "und".to_string(),
        is_english: false,
    };
    let d = route_from_detection(unknown, CheckpointId::Multilingual);
    assert_eq!(d.model, CheckpointId::Multilingual);
    assert_eq!(
        d.reason,
        "no letters detected in state; using default (multilingual)"
    );
    let han = Detection {
        script: "han".to_string(),
        non_latin_letters: 2,
        letters: 3,
        language: "und".to_string(),
        is_english: false,
    };
    let d = route_from_detection(han, CheckpointId::English);
    assert_eq!(d.model, CheckpointId::Multilingual);
    assert_eq!(
        d.reason,
        "non-Latin script (han, 67% of letters); the English checkpoint cannot read it"
    );
    let german = Detection {
        script: "latin".to_string(),
        non_latin_letters: 0,
        letters: 10,
        language: "de".to_string(),
        is_english: false,
    };
    let d = route_from_detection(german, CheckpointId::English);
    assert_eq!(d.model, CheckpointId::Multilingual);
    assert_eq!(
        d.reason,
        "Latin script but language looks like \"de\", not English"
    );
}

#[test]
fn percent_rounds_half_to_even() {
    let d = |nl: usize, l: usize| Detection {
        script: "greek".to_string(),
        non_latin_letters: nl,
        letters: l,
        language: "und".to_string(),
        is_english: false,
    };
    assert!(route_from_detection(d(1, 8), CheckpointId::English)
        .reason
        .contains("(greek, 12% of letters)"));
    assert!(route_from_detection(d(3, 8), CheckpointId::English)
        .reason
        .contains("(greek, 38% of letters)"));
    assert!(route_from_detection(d(5, 5), CheckpointId::English)
        .reason
        .contains("(greek, 100% of letters)"));
}

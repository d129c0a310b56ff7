use a3s_apofasi::infer::neural::{decision_usage, pack_request};
use a3s_apofasi::primitive::DecisionKind;
use a3s_apofasi::schema::{Criteria, Json, JsonValue, Question, State, SystemOneRequest};
use a3s_apofasi::sequence::{pack_question, ByteTokenizer, SequenceConfig, SpecialTokens};
use indexmap::IndexMap;

fn js(s: &str) -> Json {
    Json {
        value: JsonValue::Str(s.to_string()),
        text: serde_json::to_string(s).unwrap(),
    }
}

fn specials() -> SpecialTokens {
    SpecialTokens {
        cls: 0,
        sep: 1,
        mask: 2,
        pad: 3,
    }
}

#[test]
fn pack_request_packs_every_question_in_order() {
    let mut questions = IndexMap::new();
    questions.insert(
        "refund".to_string(),
        Question::new(DecisionKind::Noul, js("Refund requested?"), None).unwrap(),
    );
    questions.insert(
        "urgency".to_string(),
        Question::new(
            DecisionKind::Score,
            js("Urgency"),
            Some(Criteria::Score(vec![js("low"), js("high")])),
        )
        .unwrap(),
    );
    let req = SystemOneRequest {
        model: None,
        state: State::Text("Please refund.".into()),
        questions,
    };
    let (packed, tokens) =
        pack_request(&ByteTokenizer, specials(), "[MASK]", &req, SequenceConfig::default())
            .unwrap();
    assert_eq!(packed.len(), 2);
    let one = pack_question(
        &ByteTokenizer,
        specials(),
        "[MASK]",
        &req.state,
        "urgency",
        &req.questions["urgency"],
        SequenceConfig::default(),
    )
    .unwrap();
    assert_eq!(packed[1], one);
    assert_eq!(
        tokens as usize,
        packed[0].input_ids.len() + packed[1].input_ids.len()
    );
}

#[test]
fn pack_request_stops_at_the_first_invalid_question() {
    let mut questions = IndexMap::new();
    questions.insert(
        "ok".to_string(),
        Question::new(DecisionKind::Noul, js("fine?"), None).unwrap(),
    );
    questions.insert(
        "bad".to_string(),
        Question {
            type_: DecisionKind::Choice,
            instructions: js("which?"),
            criteria: None,
        },
    );
    let req = SystemOneRequest {
        model: None,
        state: State::Text("x".into()),
        questions,
    };
    let err = pack_request(&ByteTokenizer, specials(), "[MASK]", &req, SequenceConfig::default())
        .unwrap_err();
    assert_eq!(
        err.message(),
        "invalid question `bad`: choice questions require a non-empty criteria object"
    );
}

#[test]
fn usage_reports_no_output_tokens() {
    let u = decision_usage(42);
    assert_eq!((u.input_tokens, u.output_tokens), (42, 0));
    assert_eq!(decision_usage(u32::MAX).output_tokens, 0);
}

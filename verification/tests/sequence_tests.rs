use a3s_apofasi::error::Error;
use a3s_apofasi::primitive::DecisionKind;
use a3s_apofasi::schema::{Criteria, Json, JsonValue, Question, State};
use a3s_apofasi::sequence::{
    pack_question, render_options, ByteTokenizer, SequenceConfig, SpecialTokens, pack_encoded,
};
use indexmap::IndexMap;

fn js(s: &str) -> Json {
    Json {
        value: JsonValue::Str(s.to_string()),
        text: serde_json::to_string(s).unwrap(),
    }
}

fn specials() -> SpecialTokens {
    SpecialTokens {
        cls: 0,
        sep: 1,
        mask: 2,
        pad: 3,
    }
}

fn byte_ids(text: &str) -> Vec<u32> {
    text.chars().map(|c| u32::from(c) % 50_000 + 16).collect()
}

#[test]
fn packs_choice_with_markers() {
    let mut opts = IndexMap::new();
    opts.insert("billing".to_string(), Some(js("refunds")));
    opts.insert("tech".to_string(), Some(js("bugs")));
    let q = Question::new(
        DecisionKind::Choice,
        js("Which department?"),
        Some(Criteria::Choice(opts)),
    )
    .unwrap();
    let state = State::Text("Please refund my invoice.".into());
    let packed = pack_question(
        &ByteTokenizer,
        specials(),
        "[MASK]",
        &state,
        "department",
        &q,
        SequenceConfig::default(),
    )
    .unwrap();
    assert_eq!(packed.markers.len(), 2);
    assert_eq!(packed.option_labels, ["billing", "tech"]);
    assert_eq!(packed.input_ids[0], 0);
    assert_eq!(packed.input_ids[packed.markers[0]], 2);
    assert_eq!(packed.qtype, 0);
}

#[test]
fn noul_defaults_to_false_true() {
    let q = Question::new(DecisionKind::Noul, js("Refund requested?"), None).unwrap();
    let opts = render_options(&q).unwrap();
    assert_eq!(opts.len(), 2);
    assert_eq!(opts[0].0, "false");
    assert_eq!(opts[1].0, "true");
}

#[test]
fn score_renders_levels() {
    let q = Question::new(
        DecisionKind::Score,
        js("Urgency"),
        Some(Criteria::Score(vec![js("low"), js("high")])),
    )
    .unwrap();
    let opts = render_options(&q).unwrap();
    assert_eq!(opts[0].1, "level 0: low");
    assert_eq!(opts[1].1, "level 1: high");
}

#[test]
fn fixture_choice_markers_and_specials() {
    let mut opts = IndexMap::new();
    opts.insert("billing".to_string(), Some(js("refunds")));
    opts.insert("tech".to_string(), Some(js("bugs")));
    let q = Question::new(
        DecisionKind::Choice,
        js("Which department?"),
        Some(Criteria::Choice(opts)),
    )
    .unwrap();
    let state = State::Text("Please refund my invoice.".into());
    let packed = pack_question(
        &ByteTokenizer,
        specials(),
        "[MASK]",
        &state,
        "department",
        &q,
        SequenceConfig::default(),
    )
    .unwrap();

    assert_eq!(packed.input_ids[0], 0, "must start with CLS");
    assert_eq!(packed.markers.len(), 2);
    assert_eq!(packed.option_labels, ["billing", "tech"]);
    for &m in &packed.markers {
        assert_eq!(packed.input_ids[m], 2, "marker must be MASK");
    }
    assert_eq!(*packed.input_ids.last().unwrap(), 1, "must end with SEP");
    assert!(packed.markers[0] > 1);
    assert!(packed.input_ids[..packed.markers[0]].contains(&1));
}

#[test]
fn fixture_noul_false_true_order() {
    let q = Question::new(DecisionKind::Noul, js("Refund requested?"), None).unwrap();
    let packed = pack_question(
        &ByteTokenizer,
        specials(),
        "[MASK]",
        &State::Text("Please refund.".into()),
        "refund",
        &q,
        SequenceConfig::default(),
    )
    .unwrap();
    assert_eq!(packed.option_labels, ["false", "true"]);
    assert_eq!(packed.qtype, 2);
    assert_eq!(packed.markers.len(), 2);
}

#[test]
fn fixture_score_levels_are_indexed() {
    let q = Question::new(
        DecisionKind::Score,
        js("Urgency"),
        Some(Criteria::Score(vec![js("low"), js("high")])),
    )
    .unwrap();
    let packed = pack_question(
        &ByteTokenizer,
        specials(),
        "[MASK]",
        &State::Text("ASAP".into()),
        "urgency",
        &q,
        SequenceConfig {
            max_len: 256,
            head_max_len: 96,
            option_cap: 24,
        },
    )
    .unwrap();
    assert_eq!(packed.option_labels, ["0", "1"]);
    assert!(packed.input_ids.len() <= 256);
}

#[test]
fn packed_layout_is_exact_for_a_small_noul() {
    let q = Question::new(DecisionKind::Noul, js("ok?"), None).unwrap();
    let packed = pack_question(
        &ByteTokenizer,
        specials(),
        "[MASK]",
        &State::Text("yes [MASK]".into()),
        "q",
        &q,
        SequenceConfig::default(),
    )
    .unwrap();
    let mut expect = vec![0];
    expect.extend(byte_ids("noul question: ok?"));
    expect.push(1);
    let first = expect.len();
    expect.push(2);
    expect.extend(byte_ids(" false: no, the statement does not hold"));
    let second = expect.len();
    expect.push(2);
    expect.extend(byte_ids(" true: yes, the statement holds"));
    expect.push(1);
    expect.extend(byte_ids("yes  "));
    expect.push(1);
    assert_eq!(packed.input_ids, expect);
    assert_eq!(packed.markers, vec![first, second]);
}

#[test]
fn option_cap_truncates_each_option_body() {
    let q = Question::new(
        DecisionKind::Score,
        js("Urgency"),
        Some(Criteria::Score(vec![js("a very long description of low urgency"), js("high")])),
    )
    .unwrap();
    let packed = pack_question(
        &ByteTokenizer,
        specials(),
        "[MASK]",
        &State::Text("x".into()),
        "urgency",
        &q,
        SequenceConfig {
            max_len: 512,
            head_max_len: 192,
            option_cap: 3,
        },
    )
    .unwrap();
    let m = packed.markers[0];
    assert_eq!(&packed.input_ids[m..m + 5], &[2, 16 + 32, 16 + 108, 16 + 101, 2][..]);
}

#[test]
fn max_len_cuts_the_state() {
    let q = Question::new(DecisionKind::Noul, js("ok?"), None).unwrap();
    let packed = pack_question(
        &ByteTokenizer,
        specials(),
        "[MASK]",
        &State::Text("a long state that will not fit".into()),
        "q",
        &q,
        SequenceConfig {
            max_len: 100,
            head_max_len: 192,
            option_cap: 48,
        },
    )
    .unwrap();
    assert!(packed.input_ids.len() <= 100);
    assert_eq!(*packed.input_ids.last().unwrap(), 1);
    assert_eq!(packed.markers.len(), 2);
}

#[test]
fn markers_past_max_len_are_refused() {
    let q = Question::new(DecisionKind::Noul, js("ok?"), None).unwrap();
    let err = pack_question(
        &ByteTokenizer,
        specials(),
        "[MASK]",
        &State::Text("s".into()),
        "q",
        &q,
        SequenceConfig {
            max_len: 30,
            head_max_len: 192,
            option_cap: 48,
        },
    )
    .unwrap_err();
    assert_eq!(err.message(), "question `q` options exceed head_max_len=192");
}

#[test]
fn mismatched_criteria_are_reported_with_the_question_id() {
    let q = Question {
        type_: DecisionKind::Score,
        instructions: js("Urgency"),
        criteria: None,
    };
    let err = pack_question(
        &ByteTokenizer,
        specials(),
        "[MASK]",
        &State::Text("s".into()),
        "urgency",
        &q,
        SequenceConfig::default(),
    )
    .unwrap_err();
    assert_eq!(
        err.message(),
        "invalid question `urgency`: score criteria missing"
    );
}

fn encoded_specials() -> SpecialTokens {
    SpecialTokens {
        cls: 0,
        sep: 1,
        mask: 2,
        pad: 3,
    }
}

#[test]
fn pack_encoded_lays_out_pieces() {
    let cfg = SequenceConfig {
        max_len: 512,
        head_max_len: 192,
        option_cap: 48,
    };
    let labels = vec!["a".to_string(), "b".to_string()];
    let p = pack_encoded(
        "q",
        DecisionKind::Choice,
        labels.clone(),
        encoded_specials(),
        &vec![10, 11],
        vec![vec![2, 20], vec![2, 21]],
        &vec![30, 31],
        cfg,
    )
    .unwrap();
    assert_eq!(p.input_ids, vec![0, 10, 11, 1, 2, 20, 2, 21, 1, 30, 31, 1]);
    assert_eq!(p.markers, vec![4, 6]);
    assert_eq!(p.qtype, 0);
    assert_eq!(p.option_labels, labels);
}

#[test]
fn pack_encoded_reports_cut_marker() {
    let cfg = SequenceConfig {
        max_len: 6,
        head_max_len: 192,
        option_cap: 48,
    };
    let r = pack_encoded(
        "q7",
        DecisionKind::Choice,
        vec!["a".to_string(), "b".to_string()],
        encoded_specials(),
        &vec![10, 11],
        vec![vec![2, 20], vec![2, 21]],
        &vec![30, 31],
        cfg,
    );
    match r {
        Err(Error::HeadBudgetExceeded { id, head_max_len }) => {
            assert_eq!(id, "q7");
            assert_eq!(head_max_len, 192);
        }
        _ => panic!("expected a head-budget error"),
    }
}

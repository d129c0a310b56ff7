use a3s_apofasi::error::Error;
use a3s_apofasi::infer::CheckpointPaths;
use a3s_apofasi::train::{fine_tune_outcome, validate_fine_tune, PublishLayout};

#[test]
fn publish_layout_lists_required_files() {
    assert!(PublishLayout::required_files().contains(&"model.safetensors"));
}

#[test]
fn required_files_in_checking_order() {
    assert_eq!(
        PublishLayout::required_files(),
        &[
            "rl_agent_config.json",
            "model.safetensors",
            "encoder/config.json",
            "tokenizer/tokenizer.json",
        ]
    );
}

#[test]
fn validate_refuses_a_missing_tree() {
    let err = PublishLayout::validate("/nonexistent-apofasi-publish").unwrap_err();
    assert!(err.message().contains("missing rl_agent_config.json"));
}

#[test]
fn fine_tune_needs_an_update() {
    let base = Ok(CheckpointPaths::layout("/ckpt"));
    match fine_tune_outcome(base, 0) {
        Err(Error::Checkpoint(m)) => assert_eq!(m, "fine-tune max_updates must be >= 1"),
        other => panic!("unexpected {other:?}"),
    }
    assert!(fine_tune_outcome(Ok(CheckpointPaths::layout("/ckpt")), 3).is_ok());
}

#[test]
fn fine_tune_reports_missing_base_first() {
    let err = validate_fine_tune("/nonexistent-apofasi-base", 0).unwrap_err();
    assert!(err.message().contains("missing rl_agent_config.json"));
    let passed = Err(Error::Checkpoint("missing weights".to_string()));
    assert_eq!(
        fine_tune_outcome(passed.clone(), 5),
        Err(Error::Checkpoint("missing weights".to_string()))
    );
}

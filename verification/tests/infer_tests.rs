use a3s_apofasi::infer::checkpoint::{
    default_model_name, english_probe_path, named_dir, CheckpointPaths,
};
use a3s_apofasi::infer::mlx_decision::c_message;
use a3s_apofasi::infer::neural::sanitize_id;
use a3s_apofasi::infer::DeviceRequest;
use a3s_apofasi::route::CheckpointId;

#[test]
fn sanitize_keeps_safe_characters() {
    assert_eq!(sanitize_id("Model_v2-final"), "Model_v2-final");
    assert_eq!(sanitize_id("my model/é"), "my-model--");
    assert_eq!(sanitize_id(""), "neural");
}

#[test]
fn c_message_stops_at_nul() {
    assert_eq!(c_message(b"load failed\0garbage"), "load failed");
    assert_eq!(c_message(b"no terminator"), "no terminator");
    assert_eq!(c_message(b"\0"), "");
    assert_eq!(c_message(b"bad \xff byte\0"), "bad \u{fffd} byte");
}

#[test]
fn layout_joins_the_standard_files() {
    let p = CheckpointPaths::layout("/ckpt");
    assert_eq!(p.root, "/ckpt");
    assert_eq!(p.agent_config, "/ckpt/rl_agent_config.json");
    assert_eq!(p.weights, "/ckpt/model.safetensors");
    assert_eq!(p.encoder_config, "/ckpt/encoder/config.json");
    assert_eq!(p.tokenizer, "/ckpt/tokenizer/tokenizer.json");
}

#[test]
fn check_reports_the_first_missing_file() {
    let p = CheckpointPaths::layout("/ckpt");
    let err = p.clone().check(&[true, false, false, true]).unwrap_err();
    assert_eq!(
        err.message(),
        "checkpoint error: missing model.safetensors at /ckpt/model.safetensors"
    );
    let ok = p.check(&[true, true, true, true]).unwrap();
    assert_eq!(ok.root, "/ckpt");
}

#[test]
fn resolve_of_a_missing_directory_fails_on_the_agent_config() {
    let err = CheckpointPaths::resolve("/nonexistent-apofasi-root").unwrap_err();
    assert_eq!(
        err.message(),
        "checkpoint error: missing rl_agent_config.json at /nonexistent-apofasi-root/rl_agent_config.json"
    );
    let err = CheckpointPaths::resolve_named("/nonexistent-apofasi-root", CheckpointId::Multilingual)
        .unwrap_err();
    assert_eq!(
        err.message(),
        "checkpoint error: missing rl_agent_config.json at /nonexistent-apofasi-root/multilingual/rl_agent_config.json"
    );
    let err = CheckpointPaths::resolve_named("/nonexistent-apofasi-root", CheckpointId::English)
        .unwrap_err();
    assert_eq!(
        err.message(),
        "checkpoint error: missing rl_agent_config.json at /nonexistent-apofasi-root/rl_agent_config.json"
    );
}

#[test]
fn defaults() {
    assert_eq!(default_model_name(), "apofasi");
    assert_eq!(DeviceRequest::default(), DeviceRequest::Auto);
}

use a3s_apofasi::infer::registry::ResidentSet;

#[test]
fn lru_keeps_the_most_recent() {
    let mut set = ResidentSet::new(1);
    set.touch(CheckpointId::English);
    assert!(set.evict().is_empty());
    assert_eq!(set.order, vec![CheckpointId::English]);
    set.touch(CheckpointId::Multilingual);
    assert_eq!(set.evict(), vec![CheckpointId::English]);
    assert_eq!(set.order, vec![CheckpointId::Multilingual]);
    assert!(!set.contains(CheckpointId::English));
}

#[test]
fn touch_moves_to_the_back() {
    let mut set = ResidentSet::new(0);
    assert_eq!(set.max_loaded, 1);
    set.raise_limit(3);
    set.touch(CheckpointId::English);
    set.touch(CheckpointId::Multilingual);
    set.touch(CheckpointId::TypedDecisions);
    set.touch(CheckpointId::English);
    assert_eq!(
        set.order,
        vec![
            CheckpointId::Multilingual,
            CheckpointId::TypedDecisions,
            CheckpointId::English
        ]
    );
    assert!(set.evict().is_empty());
    set.max_loaded = 2;
    assert_eq!(set.evict(), vec![CheckpointId::Multilingual]);
}

#[test]
fn named_dirs_follow_bundle_layout() {
    assert_eq!(named_dir("/b", CheckpointId::English, true), "/b/english");
    assert_eq!(named_dir("/b", CheckpointId::English, false), "/b");
    assert_eq!(named_dir("/b", CheckpointId::Multilingual, true), "/b/multilingual");
    assert_eq!(named_dir("/b", CheckpointId::Multilingual, false), "/b/multilingual");
    assert_eq!(named_dir("/b", CheckpointId::TypedDecisions, false), "/b/typed-decisions");
    assert_eq!(english_probe_path("/b"), "/b/english/rl_agent_config.json");
}

#[test]
fn mark_loaded_moves_to_recent_and_caps() {
    let mut set = ResidentSet::new(1);
    assert!(set.mark_loaded(CheckpointId::English).is_empty());
    assert_eq!(set.order, vec![CheckpointId::English]);
    assert_eq!(set.mark_loaded(CheckpointId::Multilingual), vec![CheckpointId::English]);
    assert_eq!(set.order, vec![CheckpointId::Multilingual]);
    let mut two = ResidentSet::new(2);
    two.mark_loaded(CheckpointId::English);
    two.mark_loaded(CheckpointId::Multilingual);
    assert!(two.mark_loaded(CheckpointId::English).is_empty());
    assert_eq!(two.order, vec![CheckpointId::Multilingual, CheckpointId::English]);
}

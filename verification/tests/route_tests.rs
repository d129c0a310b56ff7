use a3s_apofasi::route::CheckpointId;

#[test]
fn checkpoint_names_parse_back() {
    for id in [
        CheckpointId::English,
        CheckpointId::Multilingual,
        CheckpointId::TypedDecisions,
    ] {
        assert_eq!(CheckpointId::parse(id.as_str()), Some(id));
    }
}

#[test]
fn checkpoint_aliases() {
    assert_eq!(CheckpointId::parse("EN"), Some(CheckpointId::English));
    assert_eq!(CheckpointId::parse(" default "), Some(CheckpointId::English));
    assert_eq!(CheckpointId::parse("multi"), Some(CheckpointId::Multilingual));
    assert_eq!(CheckpointId::parse("Typed_Decisions"), Some(CheckpointId::TypedDecisions));
    assert_eq!(CheckpointId::parse("decisions"), Some(CheckpointId::TypedDecisions));
    assert_eq!(CheckpointId::parse("apofasi-0.1.2"), None);
}

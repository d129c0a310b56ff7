use a3s_apofasi::primitive::DecisionKind;

#[test]
fn lib_decision_kind_names_are_stable() {
    assert_eq!(DecisionKind::Choice.as_str(), "choice");
    assert_eq!(DecisionKind::Score.as_str(), "score");
    assert_eq!(DecisionKind::Noul.as_str(), "noul");
}

#[test]
fn primitive_decision_kind_names_are_stable() {
    assert_eq!(DecisionKind::Choice.as_str(), "choice");
    assert_eq!(DecisionKind::Score.as_str(), "score");
    assert_eq!(DecisionKind::Noul.as_str(), "noul");
    assert_eq!(DecisionKind::Choice.type_id(), 0);
    assert_eq!(DecisionKind::parse("NOUL"), Some(DecisionKind::Noul));
}

#[test]
fn kind_names_parse_back() {
    for kind in [DecisionKind::Choice, DecisionKind::Score, DecisionKind::Noul] {
        assert_eq!(DecisionKind::parse(kind.as_str()), Some(kind));
    }
    assert_eq!(DecisionKind::parse("  Score\n"), Some(DecisionKind::Score));
    assert_eq!(DecisionKind::parse("scores"), None);
    assert_eq!(DecisionKind::parse(""), None);
}

#[test]
fn kind_ids_are_dense() {
    assert_eq!(DecisionKind::Choice.type_id(), 0);
    assert_eq!(DecisionKind::Score.type_id(), 1);
    assert_eq!(DecisionKind::Noul.type_id(), 2);
}

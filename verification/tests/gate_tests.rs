use std::collections::BTreeMap;

use a3s_apofasi::gate::{any_escalate, GateAction};

#[test]
fn gate_labels_are_stable() {
    assert_eq!(GateAction::Auto.as_str(), "auto");
    assert_eq!(GateAction::Escalate.as_str(), "escalate");
}

#[test]
fn any_escalate_sees_one_escalation() {
    let mut gates = BTreeMap::new();
    gates.insert("department".to_string(), GateAction::Escalate);
    gates.insert("refund".to_string(), GateAction::Auto);
    assert!(any_escalate(&gates));
    assert_eq!(gates["department"], GateAction::Escalate);
    assert_eq!(gates["refund"], GateAction::Auto);
}

#[test]
fn all_auto_does_not_escalate() {
    let mut gates = BTreeMap::new();
    gates.insert("a".to_string(), GateAction::Auto);
    gates.insert("b".to_string(), GateAction::Auto);
    assert!(!any_escalate(&gates));
    assert!(!any_escalate(&BTreeMap::new()));
}

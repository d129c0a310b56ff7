use a3s_apofasi::confidence::{override_index, temp_bucket};
use a3s_apofasi::primitive::DecisionKind;

#[test]
fn temp_bucket_uses_stable_wire_keys() {
    assert_eq!(temp_bucket(DecisionKind::Choice, 4), "choice:3-5");
    assert_eq!(temp_bucket(DecisionKind::Noul, 2), "noul:2");
    assert_eq!(temp_bucket(DecisionKind::Choice, 20), "choice:11+");
}

#[test]
fn temp_bucket_edges() {
    assert_eq!(temp_bucket(DecisionKind::Score, 0), "score:2");
    assert_eq!(temp_bucket(DecisionKind::Score, 3), "score:3-5");
    assert_eq!(temp_bucket(DecisionKind::Score, 5), "score:3-5");
    assert_eq!(temp_bucket(DecisionKind::Score, 6), "score:6-10");
    assert_eq!(temp_bucket(DecisionKind::Score, 10), "score:6-10");
    assert_eq!(temp_bucket(DecisionKind::Score, 11), "score:11+");
}

#[test]
fn override_index_finds_the_first_matching_key() {
    let keys = vec![
        "noul:2".to_string(),
        "choice:3-5".to_string(),
        "choice:3-5".to_string(),
    ];
    assert_eq!(override_index(&keys, DecisionKind::Choice, 4), Some(1));
    assert_eq!(override_index(&keys, DecisionKind::Noul, 2), Some(0));
    assert_eq!(override_index(&keys, DecisionKind::Choice, 12), None);
    assert_eq!(override_index(&[], DecisionKind::Choice, 4), None);
}

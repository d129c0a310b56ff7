use a3s_apofasi::decode::{labels_unique, noul_true_index, publish_units, score_legend_text};
use a3s_apofasi::schema::{Json, JsonValue};

fn check(units: &[u32], winner: usize, positive: bool) -> Vec<u32> {
    let out = publish_units(units, winner, positive);
    assert_eq!(out.len(), units.len());
    assert_eq!(out.iter().map(|&u| u as u64).sum::<u64>(), 10_000);
    for (i, &u) in out.iter().enumerate() {
        assert!(u <= out[winner]);
        if i != winner {
            assert!(u <= units[i]);
        }
    }
    if positive {
        assert!(out[winner] >= 1);
    }
    out
}

#[test]
fn exact_units_are_kept() {
    assert_eq!(check(&[2500, 0, 2500, 2500], 1, true), vec![2500, 2500, 2500, 2500]);
    assert_eq!(check(&[3000, 9999, 2000], 1, true), vec![3000, 5000, 2000]);
}

#[test]
fn overfull_others_give_up_units_from_the_largest() {
    // Others hold 10002 units: they give up units until the winner's minimum
    // fits, then hand units to the winner until it is an argmax.
    assert_eq!(check(&[5001, 0, 5001], 1, true), vec![3333, 3334, 3333]);
    assert_eq!(check(&[5001, 0, 5001], 1, false), vec![3333, 3334, 3333]);
    assert_eq!(check(&[10000, 0, 10000, 7], 1, true), vec![3331, 3331, 3331, 7]);
    assert_eq!(check(&[0, 0, 0], 0, false), vec![10000, 0, 0]);
}

#[test]
fn rivals_hand_units_to_the_winner() {
    // Winner got 3000 by rounding; the rival with 4000 hands over units until
    // it no longer outranks the winner.
    assert_eq!(check(&[4000, 0, 3000], 1, true), vec![3500, 3500, 3000]);
}

#[test]
fn many_small_options_sum_to_one() {
    let mut units = vec![1u32; 80];
    units[79] = 0;
    let out = check(&units, 79, true);
    assert_eq!(out[79], 9921);
}

#[test]
fn labels_must_be_distinct() {
    let labels: Vec<String> = vec!["a".into(), "b".into(), "c".into()];
    assert!(labels_unique(&labels));
    let dup: Vec<String> = vec!["a".into(), "b".into(), "a".into()];
    assert!(!labels_unique(&dup));
    assert!(labels_unique(&[]));
}

#[test]
fn legend_text_of_string_and_structured_values() {
    let s = Json {
        value: JsonValue::Str("Calm".to_string()),
        text: "\"Calm\"".to_string(),
    };
    assert_eq!(score_legend_text(&s), "Calm");
    let n = Json {
        value: JsonValue::Number("3".to_string()),
        text: "3".to_string(),
    };
    assert_eq!(score_legend_text(&n), "3");
}

#[test]
fn noul_index_prefers_true_label() {
    let labels = |v: &[&str]| v.iter().map(|s| s.to_string()).collect::<Vec<String>>();
    assert_eq!(noul_true_index(&labels(&["false", "true"])), 1);
    assert_eq!(noul_true_index(&labels(&["true", "false"])), 0);
    assert_eq!(noul_true_index(&labels(&["true", "true"])), 0);
    assert_eq!(noul_true_index(&labels(&["no", "yes", "maybe"])), 1);
    assert_eq!(noul_true_index(&labels(&["only"])), 0);
    assert_eq!(noul_true_index(&labels(&[])), 0);
}

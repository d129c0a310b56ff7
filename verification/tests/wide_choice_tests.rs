use a3s_apofasi::error::Error;
use a3s_apofasi::wide_choice::{
    grouped_shape_check, plan_choice_groups, refine_index_error, refine_index_fault,
    survivor_count,
};

#[test]
fn fitting_choice_stays_one_group() {
    let groups = plan_choice_groups(&[8, 8, 8, 8], 192);
    assert_eq!(groups, vec![vec![0, 1, 2, 3]]);
}

#[test]
fn overflow_splits_without_dropping_options() {
    let costs = vec![30usize; 40];
    let groups = plan_choice_groups(&costs, 192);
    assert!(groups.len() > 1);
    let mut seen = Vec::new();
    for group in &groups {
        assert!(!group.is_empty());
        let sum: usize = group.iter().map(|&i| costs[i].min(176)).sum();
        assert!(sum <= 192 - 16, "group cost {sum}");
        seen.extend(group.iter().copied());
    }
    seen.sort_unstable();
    assert_eq!(seen, (0..40).collect::<Vec<_>>());
}

#[test]
fn wide_budget_uses_the_eleven_plus_bucket() {
    let costs = vec![4usize; 72];
    let groups = plan_choice_groups(&costs, 192);
    assert!(
        groups.iter().any(|group| group.len() > 10),
        "a head budget that fits more than 10 options must not stop at 10"
    );
    let mut seen = Vec::new();
    for group in &groups {
        let sum: usize = group.iter().map(|&index| costs[index]).sum();
        assert!(sum <= 192 - 16, "group cost {sum}");
        seen.extend(group.iter().copied());
    }
    seen.sort_unstable();
    assert_eq!(seen, (0..72).collect::<Vec<_>>());
}

#[test]
fn wide_groups_are_interleaved() {
    let costs = vec![20usize; 24];
    let groups = plan_choice_groups(&costs, 192);
    assert!(groups.len() > 1);
    let first = &groups[0];
    assert!(
        first.windows(2).any(|pair| pair[1] > pair[0] + 1),
        "expected non-contiguous indexes in an interleaved group: {first:?}"
    );
}

#[test]
fn survivor_count_follows_group_size() {
    assert_eq!(survivor_count(2), 1);
    assert_eq!(survivor_count(9), 3);
}

#[test]
fn empty_choice_has_no_groups() {
    let groups = plan_choice_groups(&[], 192);
    assert!(groups.is_empty());
}

#[test]
fn every_option_lands_in_exactly_one_group() {
    let costs: Vec<usize> = (0..57).map(|i| 5 + (i * 7) % 40).collect();
    let groups = plan_choice_groups(&costs, 128);
    let mut seen: Vec<usize> = groups.iter().flatten().copied().collect();
    seen.sort_unstable();
    assert_eq!(seen, (0..57).collect::<Vec<_>>());
    for group in &groups {
        assert!(!group.is_empty());
    }
}

#[test]
fn refine_index_fault_finds_first_bad_entry() {
    assert_eq!(refine_index_fault(4, &[2, 0, 3]), None);
    assert_eq!(refine_index_fault(4, &[2, 4, 2]), Some(4));
    assert_eq!(refine_index_fault(4, &[1, 3, 1, 9]), Some(1));
    assert_eq!(refine_index_fault(0, &[]), None);
}

#[test]
fn refine_index_error_names_the_index() {
    match refine_index_error(12) {
        Error::InvalidQuestion { id, reason } => {
            assert_eq!(id, "");
            assert_eq!(reason, "top-choice refine index 12 is missing or repeated");
        }
        _ => panic!("expected an invalid-question error"),
    }
}

fn shape_reason(r: a3s_apofasi::error::Result<()>) -> String {
    match r {
        Err(Error::InvalidQuestion { id, reason }) => {
            assert_eq!(id, "");
            reason
        }
        other => panic!("expected an invalid-question error, got {other:?}"),
    }
}

#[test]
fn grouped_shape_accepts_a_partition() {
    let groups = vec![vec![0, 2, 4], vec![1, 3]];
    let locals = vec![vec![2, 0], vec![1]];
    assert!(grouped_shape_check(5, &groups, &[3, 2], &[true, true], &locals, 3, true).is_ok());
}

#[test]
fn grouped_shape_reports_first_fault() {
    let groups = vec![vec![0, 2, 4], vec![1, 3]];
    let locals = vec![vec![2, 0], vec![1]];
    assert_eq!(
        shape_reason(grouped_shape_check(5, &groups, &[3], &[true], &locals, 3, true)),
        "grouped choice probabilities do not cover every group"
    );
    assert_eq!(
        shape_reason(grouped_shape_check(5, &groups, &[3, 2], &[true, true], &locals, 4, true)),
        "grouped choice survivors do not match the next comparison"
    );
    assert_eq!(
        shape_reason(grouped_shape_check(5, &groups, &[3, 2], &[true, true], &locals, 3, false)),
        "grouped choice survivors do not match the next comparison"
    );
    assert_eq!(
        shape_reason(grouped_shape_check(5, &groups, &[3, 2], &[true, false], &locals, 3, true)),
        "grouped choice chunk does not match its options"
    );
    assert_eq!(
        shape_reason(grouped_shape_check(5, &groups, &[2, 2], &[true, true], &locals, 3, true)),
        "grouped choice chunk does not match its options"
    );
    let bad_locals = vec![vec![2, 2], vec![1]];
    assert_eq!(
        shape_reason(grouped_shape_check(5, &groups, &[3, 2], &[true, true], &bad_locals, 3, true)),
        "grouped choice survivor 2 is missing or repeated"
    );
    let out_of_range = vec![vec![0, 3], vec![1]];
    assert_eq!(
        shape_reason(grouped_shape_check(5, &groups, &[3, 2], &[true, true], &out_of_range, 3, true)),
        "grouped choice survivor 3 is missing or repeated"
    );
    let repeated = vec![vec![0, 2, 4], vec![1, 2]];
    assert_eq!(
        shape_reason(grouped_shape_check(5, &repeated, &[3, 2], &[true, true], &locals, 3, true)),
        "grouped choice index 2 is missing or repeated"
    );
    let short = vec![vec![0, 2, 4], vec![1]];
    assert_eq!(
        shape_reason(grouped_shape_check(5, &short, &[3, 1], &[true, true], &vec![vec![0], vec![0]], 2, true)),
        "grouped choice did not assign every option"
    );
}

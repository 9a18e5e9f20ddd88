use debordostat::distribution::{
    attack_distribution, estimated_distribution, estimator_should_run, select_attack_distribution,
    weighted_attack_distribution, AttackDistribution, EstimatorReport,
};

fn total_weight(d: &AttackDistribution) -> u64 {
    d.entries.iter().map(|e| e.1).sum()
}

#[test]
fn reroll_distribution_covers_the_interval() {
    let d = attack_distribution(24000, 25000, 34).unwrap();
    assert_eq!(d.entries.len(), 1001);
    assert_eq!(d.entries[0].0, 24000);
    assert_eq!(d.entries[1000].0, 25000);
    assert_eq!(d.denominator, 1001 * 1001);
}

#[test]
fn reroll_distribution_favours_values_up_to_the_midpoint() {
    // day 34: bounds 22258..=26828, midpoint 24543; 457 values lie above it.
    let d = attack_distribution(24000, 25000, 34).unwrap();
    let low = d.entries.iter().find(|e| e.0 == 24543).unwrap().1;
    let high = d.entries.iter().find(|e| e.0 == 24544).unwrap().1;
    assert_eq!(low, 1001 + 457);
    assert_eq!(high, 457);
}

#[test]
fn reroll_distribution_sums_to_one() {
    let d = attack_distribution(24000, 25000, 34).unwrap();
    assert_eq!(total_weight(&d), d.denominator);
    let d = attack_distribution(20109, 20861, 34).unwrap();
    assert_eq!(total_weight(&d), d.denominator);
    let d = attack_distribution(20, 30, 1).unwrap();
    assert_eq!(total_weight(&d), d.denominator);
}

#[test]
fn reroll_distribution_above_the_midpoint_exceeds_one() {
    // day 1: bounds 26..=58, midpoint 42; every value of 100..=105 is above it.
    let d = attack_distribution(100, 105, 1).unwrap();
    assert!(d.entries.iter().all(|e| e.1 == 63));
    assert_eq!(d.denominator, 36);
    assert!(total_weight(&d) > d.denominator);
}

#[test]
fn reroll_distribution_of_a_single_value() {
    let d = attack_distribution(24000, 24000, 34).unwrap();
    assert_eq!(d.entries, vec![(24000, 1)]);
    assert_eq!(d.denominator, 1);
}

#[test]
fn reroll_distribution_of_an_empty_interval() {
    let d = attack_distribution(10, 5, 34).unwrap();
    assert!(d.entries.is_empty());
}

#[test]
fn reroll_distribution_reports_overflow() {
    assert!(attack_distribution(i32::MIN, i32::MAX, 34).is_none());
    assert!(attack_distribution(1, 2, i32::MIN).is_none());
    assert!(attack_distribution(2, 1, i32::MIN).is_some());
}

#[test]
fn weighted_distribution_doubles_the_lower_half() {
    let d = weighted_attack_distribution(100, 105).unwrap();
    let weights: Vec<u64> = d.entries.iter().map(|e| e.1).collect();
    assert_eq!(weights, vec![2, 2, 2, 1, 1, 1]);
    assert_eq!(d.denominator, 9);
}

#[test]
fn weighted_distribution_sums_to_one() {
    for (lo, hi) in [(100, 105), (19561, 20176), (7, 7), (0, 1)] {
        let d = weighted_attack_distribution(lo, hi).unwrap();
        assert_eq!(total_weight(&d), d.denominator);
    }
}

#[test]
fn weighted_distribution_reports_overflow() {
    assert!(weighted_attack_distribution(0, i32::MAX).is_none());
    assert!(weighted_attack_distribution(5, 4).unwrap().entries.is_empty());
}

#[test]
fn estimated_distribution_keeps_the_counts() {
    let report = EstimatorReport { counts: vec![(17000, 3), (17500, 1)], total_matches: 4 };
    let d = estimated_distribution(&report);
    assert_eq!(d.entries, vec![(17000, 3), (17500, 1)]);
    assert_eq!(d.denominator, 4);
}

#[test]
fn estimated_distribution_casts_attack_values() {
    let report = EstimatorReport { counts: vec![((1i64 << 32) + 5, 2)], total_matches: 2 };
    assert_eq!(estimated_distribution(&report).entries, vec![(5, 2)]);
}

#[test]
fn estimated_distribution_keeps_the_last_count_of_a_value() {
    let report = EstimatorReport {
        counts: vec![((1i64 << 32) + 5, 2), (9, 1), (5, 7)],
        total_matches: 10,
    };
    assert_eq!(estimated_distribution(&report).entries, vec![(5, 7), (9, 1)]);
}

#[test]
fn estimator_runs_only_when_enabled_with_observations() {
    assert!(estimator_should_run(Some(true), 3));
    assert!(!estimator_should_run(Some(true), 0));
    assert!(!estimator_should_run(Some(false), 3));
    assert!(!estimator_should_run(None, 3));
}

#[test]
fn selection_falls_back_without_estimate() {
    let d = select_attack_distribution(34, (20109, 20861), None).unwrap();
    let classic = attack_distribution(20109, 20861, 34).unwrap();
    assert_eq!(d.entries, classic.entries);
    assert_eq!(d.denominator, classic.denominator);
}

#[test]
fn selection_falls_back_when_nothing_matched() {
    let report = EstimatorReport { counts: vec![], total_matches: 0 };
    let d = select_attack_distribution(34, (20109, 20861), Some(&report)).unwrap();
    assert_eq!(d.entries.len(), 753);
    assert_eq!(d.denominator, 753 * 753);
}

#[test]
fn selection_uses_the_estimate_when_it_matched() {
    let report = EstimatorReport { counts: vec![(17300, 7)], total_matches: 7 };
    let d = select_attack_distribution(34, (20109, 20861), Some(&report)).unwrap();
    assert_eq!(d.entries, vec![(17300, 7)]);
    assert_eq!(d.denominator, 7);
}

use debordostat::rules::{attack_bounds, flag_share, split_flags, target_count, FlagSplit};

#[test]
fn target_count_starts_at_ten() {
    assert_eq!(target_count(1), 10);
    assert_eq!(target_count(10), 10);
    assert_eq!(target_count(11), 10);
    assert_eq!(target_count(-5), 10);
}

#[test]
fn target_count_grows_by_two_every_two_days() {
    assert_eq!(target_count(12), 12);
    assert_eq!(target_count(13), 12);
    assert_eq!(target_count(32), 32);
    assert_eq!(target_count(33), 32);
    assert_eq!(target_count(34), 34);
}

#[test]
fn flag_share_is_two_and_a_half_percent_rounded() {
    assert_eq!(flag_share(1000), 25);
    assert_eq!(flag_share(2268), 57);
    assert_eq!(flag_share(19), 0);
    assert_eq!(flag_share(0), 0);
}

#[test]
fn flag_share_rounds_halves_away_from_zero() {
    assert_eq!(flag_share(20), 1);
    assert_eq!(flag_share(60), 2);
    assert_eq!(flag_share(-20), -1);
    assert_eq!(flag_share(-60), -2);
}

#[test]
fn flag_share_at_the_extremes() {
    assert_eq!(flag_share(i32::MAX), 53687091);
    assert_eq!(flag_share(i32::MIN), -53687091);
}

#[test]
fn split_flags_removes_one_share_per_flag() {
    assert_eq!(split_flags(2268, 40), Some(FlagSplit { leftover: -12, bonus: 57 }));
    assert_eq!(split_flags(1000, 40), Some(FlagSplit { leftover: 0, bonus: 25 }));
    assert_eq!(split_flags(1000, 3), Some(FlagSplit { leftover: 925, bonus: 25 }));
}

#[test]
fn split_flags_without_flags_keeps_the_attack() {
    assert_eq!(split_flags(1000, 0), Some(FlagSplit { leftover: 1000, bonus: 25 }));
    assert_eq!(split_flags(1000, -4), Some(FlagSplit { leftover: 1000, bonus: 25 }));
}

#[test]
fn split_flags_reports_overflow() {
    assert_eq!(split_flags(i32::MAX, 100), None);
    assert_eq!(split_flags(i32::MIN, 100), None);
    assert!(split_flags(i32::MAX, 40).is_some());
}

#[test]
fn attack_bounds_of_early_days() {
    assert_eq!(attack_bounds(1), (26, 58));
    assert_eq!(attack_bounds(2), (26, 94));
    assert_eq!(attack_bounds(3), (48, 143));
}

#[test]
fn attack_bounds_of_later_days() {
    assert_eq!(attack_bounds(4), (118, 302));
    assert_eq!(attack_bounds(10), (871, 1464));
    assert_eq!(attack_bounds(31), (17188, 21055));
    assert_eq!(attack_bounds(34), (22258, 26828));
}

#[test]
fn attack_bounds_saturate() {
    assert_eq!(attack_bounds(100_000), (i32::MAX, i32::MAX));
    assert_eq!(attack_bounds(-100_000).1, i32::MIN);
}

#[test]
fn attack_bounds_are_ordered_from_day_one() {
    for day in 1..200 {
        let (lo, hi) = attack_bounds(day);
        assert!(lo <= hi, "day {day}");
    }
}

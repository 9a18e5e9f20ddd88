use debordostat::montecarlo::{exceeds_threshold, reactor_attack, OverflowTally};
use debordostat::rules::{split_flags, FlagSplit};
use debordostat::simulator::{clamp_shares, AttackSimulator};

#[test]
fn nothing_left_gives_every_target_the_bonus() {
    let mut sim = AttackSimulator::new_with_seed(42);
    let split = FlagSplit { leftover: -12, bonus: 57 };
    assert_eq!(sim.distribute(split, 32, &Vec::new()), Some(vec![57; 32]));
    let split = FlagSplit { leftover: 0, bonus: 25 };
    assert_eq!(sim.distribute(split, 10, &Vec::new()), Some(vec![25; 10]));
}

#[test]
fn exact_shares_are_kept() {
    let mut sim = AttackSimulator::new_with_seed(1);
    let split = FlagSplit { leftover: 10, bonus: 3 };
    assert_eq!(sim.distribute(split, 3, &vec![3, 3, 4]), Some(vec![6, 6, 7]));
}

#[test]
fn shares_are_clamped() {
    assert_eq!(clamp_shares(&vec![-5, 20, 2], 10), vec![0, 10, 2]);
    assert_eq!(clamp_shares(&vec![-5, 20, 2], -3), vec![-3, -3, -3]);
    let mut sim = AttackSimulator::new_with_seed(1);
    let split = FlagSplit { leftover: 10, bonus: 3 };
    assert_eq!(sim.distribute(split, 3, &vec![-5, 20, 2]), Some(vec![3, 13, 5]));
}

#[test]
fn missing_units_are_handed_out() {
    let mut sim = AttackSimulator::new_with_seed(7);
    let split = FlagSplit { leftover: 100, bonus: 4 };
    let alloc = sim.distribute(split, 5, &vec![0, 10, 0, 5, 0]).unwrap();
    assert_eq!(alloc.len(), 5);
    assert_eq!(alloc.iter().sum::<i32>(), 100 + 5 * 4);
    assert!(alloc[1] >= 14 && alloc[3] >= 9);
    assert!(alloc.iter().all(|&x| x >= 4));
}

#[test]
fn the_rest_is_spread_over_several_targets() {
    let mut sim = AttackSimulator::new();
    let split = FlagSplit { leftover: 10_000, bonus: 0 };
    let alloc = sim.distribute(split, 10, &vec![0; 10]).unwrap();
    assert_eq!(alloc.iter().sum::<i32>(), 10_000);
    assert!(alloc.iter().filter(|&&x| x > 0).count() > 1);
}

#[test]
fn attack_is_conserved() {
    let attacking = 2000;
    let drapo = 10;
    let split = split_flags(attacking, drapo).unwrap();
    assert_eq!(split, FlagSplit { leftover: 1500, bonus: 50 });
    let mut sim = AttackSimulator::new_with_seed(3);
    let shares = vec![140; 10];
    let alloc = sim.distribute(split, 10, &shares).unwrap();
    assert_eq!(alloc.iter().sum::<i32>(), attacking - drapo * 50 + 10 * 50);
}

#[test]
fn same_seed_same_allocation() {
    let split = FlagSplit { leftover: 500, bonus: 2 };
    let shares = vec![10; 12];
    let mut a = AttackSimulator::new_with_seed(42);
    let mut b = AttackSimulator::new_with_seed(42);
    assert_eq!(a.distribute(split, 12, &shares), b.distribute(split, 12, &shares));
}

#[test]
fn nothing_left_draws_nothing() {
    let shares = vec![10; 12];
    let spread = FlagSplit { leftover: 500, bonus: 2 };
    let mut a = AttackSimulator::new_with_seed(42);
    let mut b = AttackSimulator::new_with_seed(42);
    let _ = a.distribute(FlagSplit { leftover: -12, bonus: 57 }, 12, &shares);
    let _ = a.distribute(FlagSplit { leftover: 0, bonus: 57 }, 12, &shares);
    assert_eq!(a.distribute(spread, 12, &shares), b.distribute(spread, 12, &shares));
}

#[test]
fn different_seeds_spread_differently() {
    let shares = vec![0; 10];
    let split = FlagSplit { leftover: 1000, bonus: 0 };
    let mut a = AttackSimulator::new_with_seed(1);
    let mut b = AttackSimulator::new_with_seed(2);
    assert_ne!(a.distribute(split, 10, &shares), b.distribute(split, 10, &shares));
}

#[test]
fn overflow_only_when_a_draw_overflows() {
    // one target: every remaining unit lands on it, so the overflow is certain
    let mut sim = AttackSimulator::new_with_seed(5);
    let split = FlagSplit { leftover: i32::MAX, bonus: 0 };
    assert_eq!(sim.distribute(split, 1, &vec![i32::MAX - 3]), Some(vec![i32::MAX]));
    let split = FlagSplit { leftover: i32::MAX, bonus: 1 };
    assert_eq!(sim.distribute(split, 1, &vec![i32::MAX - 3]), None);
}

#[test]
fn allocation_reports_overflow() {
    let mut sim = AttackSimulator::new_with_seed(5);
    let split = FlagSplit { leftover: i32::MAX, bonus: 1 };
    assert_eq!(sim.distribute(split, 2, &vec![i32::MAX, 5]), None);
    let split = FlagSplit { leftover: i32::MAX - 1, bonus: 2 };
    assert_eq!(sim.distribute(split, 1, &vec![i32::MAX - 1]), None);
}

#[test]
fn reactor_adds_between_100_and_250() {
    for _ in 0..200 {
        let r = reactor_attack(1000, Some(true)).unwrap();
        assert!((1100..=1250).contains(&r));
    }
}

#[test]
fn reactor_damage_varies() {
    let draws: std::collections::HashSet<i32> =
        (0..200).map(|_| reactor_attack(0, Some(true)).unwrap()).collect();
    assert!(draws.len() > 1);
    assert!(draws.iter().all(|d| (100..=250).contains(d)));
}

#[test]
fn no_reactor_keeps_the_attack() {
    assert_eq!(reactor_attack(1000, Some(false)), Some(1000));
    assert_eq!(reactor_attack(1000, None), Some(1000));
    assert_eq!(reactor_attack(i32::MAX, None), Some(i32::MAX));
}

#[test]
fn reactor_overflow_is_reported() {
    assert_eq!(reactor_attack(i32::MAX - 99, Some(true)), None);
    assert!(reactor_attack(i32::MAX - 250, Some(true)).is_some());
}

#[test]
fn overrun_needs_a_target_above_the_threshold() {
    assert!(exceeds_threshold(&vec![10, 62, 3], 61));
    assert!(!exceeds_threshold(&vec![10, 61, 3], 61));
    assert!(!exceeds_threshold(&Vec::new(), 0));
}

#[test]
fn tally_counts_runs_and_overruns() {
    let mut tally = OverflowTally::new(3);
    assert!(!tally.is_finished());
    tally.record(&vec![70, 1], 61);
    tally.record(&vec![60, 1], 61);
    assert!(!tally.is_finished());
    tally.record(&vec![1, 62], 61);
    assert!(tally.is_finished());
    assert_eq!(tally.hits(), 2);
    assert_eq!(tally.iterations(), 3);
}

#[test]
fn empty_tally_is_finished() {
    let tally = OverflowTally::new(0);
    assert!(tally.is_finished());
    assert_eq!(tally.hits(), 0);
}

#[test]
fn flags_exhausting_the_attack_give_every_target_the_bonus() {
    let split = split_flags(2268, 40).unwrap();
    assert_eq!(split, FlagSplit { leftover: -12, bonus: 57 });
    let targets = debordostat::rules::target_count(32);
    let mut sim = AttackSimulator::new();
    let alloc = sim.distribute(split, targets, &Vec::new()).unwrap();
    assert_eq!(alloc, vec![57; 32]);
    assert!(!exceeds_threshold(&alloc, 61));
}

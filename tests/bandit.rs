use bandit_dispatch::bandit::{BanditError, Belief, Estimate, ThompsonSampler};
use rand::rngs::StdRng;
use rand::{Rng, SeedableRng};
use rand_distr::{Beta, Distribution};

fn draw_scores(ts: &ThompsonSampler, rng: &mut StdRng) -> Vec<u64> {
    let mut scores = Vec::new();
    for arm in 0..ts.num_arms() {
        let b = ts.belief(arm).unwrap();
        let dist = Beta::new(b.success_weight as f64, b.failure_weight as f64).unwrap();
        let x: f64 = dist.sample(rng);
        scores.push(x.to_bits());
    }
    scores
}

fn best_estimate(ts: &ThompsonSampler) -> usize {
    let mut best = 0;
    for arm in 1..ts.num_arms() {
        let a = ts.estimate(arm).unwrap();
        let b = ts.estimate(best).unwrap();
        if (a.numerator as u128) * (b.denominator as u128) > (b.numerator as u128) * (a.denominator as u128) {
            best = arm;
        }
    }
    best
}

#[test]
fn zero_arms_is_invalid_config() {
    assert!(matches!(ThompsonSampler::new(0), Err(BanditError::InvalidConfig)));
}

#[test]
fn fresh_estimates_are_one_half() {
    for n in 1..8 {
        let ts = ThompsonSampler::new(n).unwrap();
        assert_eq!(ts.num_arms(), n);
        for arm in 0..n {
            assert_eq!(ts.estimate(arm), Some(Estimate { numerator: 1, denominator: 2 }));
            assert_eq!(ts.belief(arm), Some(Belief { success_weight: 1, failure_weight: 1 }));
        }
        assert_eq!(ts.estimate(n), None);
        assert_eq!(ts.belief(n), None);
    }
}

#[test]
fn estimate_after_successes_and_failures() {
    let mut ts = ThompsonSampler::new(3).unwrap();
    let rewards = [1, 0, 0, 1, 1, 0, 1, 1];
    for r in rewards {
        assert_eq!(ts.update(1, r), Ok(()));
    }
    // five successes, three failures: (1 + 5) / (2 + 5 + 3)
    assert_eq!(ts.estimate(1), Some(Estimate { numerator: 6, denominator: 10 }));
    assert_eq!(ts.estimate(0), Some(Estimate { numerator: 1, denominator: 2 }));
    assert_eq!(ts.estimate(2), Some(Estimate { numerator: 1, denominator: 2 }));
}

#[test]
fn order_of_rewards_does_not_matter() {
    let mut a = ThompsonSampler::new(2).unwrap();
    let mut b = ThompsonSampler::new(2).unwrap();
    for r in [1, 1, 0, 0, 0] {
        a.update(0, r).unwrap();
    }
    for r in [0, 1, 0, 1, 0] {
        b.update(0, r).unwrap();
    }
    assert_eq!(a.belief(0), b.belief(0));
    assert_eq!(a.belief(0), Some(Belief { success_weight: 3, failure_weight: 4 }));
}

#[test]
fn update_out_of_range_is_invalid_arm() {
    let mut ts = ThompsonSampler::new(2).unwrap();
    ts.update(0, 1).unwrap();
    assert_eq!(ts.update(2, 1), Err(BanditError::InvalidArm));
    assert_eq!(ts.update(usize::MAX, 0), Err(BanditError::InvalidArm));
    assert_eq!(ts.belief(0), Some(Belief { success_weight: 2, failure_weight: 1 }));
    assert_eq!(ts.belief(1), Some(Belief { success_weight: 1, failure_weight: 1 }));
}

#[test]
fn select_arm_takes_greatest_score() {
    let ts = ThompsonSampler::new(4).unwrap();
    assert_eq!(ts.select_arm(&vec![3, 9, 2, 7]), 1);
    assert_eq!(ts.select_arm(&vec![3, 2, 2, 7]), 3);
    assert_eq!(ts.select_arm(&vec![8, 2, 2, 7]), 0);
}

#[test]
fn select_arm_ties_go_to_lowest_index() {
    let ts = ThompsonSampler::new(5).unwrap();
    assert_eq!(ts.select_arm(&vec![1, 5, 3, 5, 5]), 1);
    assert_eq!(ts.select_arm(&vec![4, 4, 4, 4, 4]), 0);
}

#[test]
fn single_arm_is_always_selected() {
    let ts = ThompsonSampler::new(1).unwrap();
    assert_eq!(ts.select_arm(&vec![0]), 0);
    assert_eq!(ts.select_arm(&vec![u64::MAX]), 0);
}

#[test]
fn converges_to_best_arm() {
    let true_rates = [0.05, 0.02, 0.08, 0.03, 0.01];
    let trials = 20;
    let mut wins = 0;
    for seed in 0..trials {
        let mut rng = StdRng::seed_from_u64(seed);
        let mut ts = ThompsonSampler::new(true_rates.len()).unwrap();
        for _ in 0..5000 {
            let scores = draw_scores(&ts, &mut rng);
            let arm = ts.select_arm(&scores);
            assert!(arm < true_rates.len());
            let u: f64 = rng.gen();
            let reward = if u < true_rates[arm] { 1 } else { 0 };
            ts.update(arm, reward).unwrap();
        }
        if best_estimate(&ts) == 2 {
            wins += 1;
        }
    }
    assert!(wins * 5 >= trials * 3, "best arm found in {} of {} trials", wins, trials);
}

#[test]
fn out_of_range_arm_refused_whatever_the_reward() {
    let mut ts = ThompsonSampler::new(5).unwrap();
    assert_eq!(ts.update(5, 1), Err(BanditError::InvalidArm));
    assert_eq!(ts.update(9, 7), Err(BanditError::InvalidArm));
    assert_eq!(ts.num_arms(), 5);
    for arm in 0..5 {
        assert_eq!(ts.belief(arm), Some(Belief { success_weight: 1, failure_weight: 1 }));
    }
}

#[test]
fn order_of_updates_across_arms_does_not_matter() {
    let us = [(0, 1), (2, 0), (1, 1), (0, 0), (2, 1), (0, 1)];
    let mut a = ThompsonSampler::new(3).unwrap();
    let mut b = ThompsonSampler::new(3).unwrap();
    for &(arm, r) in us.iter() {
        a.update(arm, r).unwrap();
    }
    for &(arm, r) in us.iter().rev() {
        b.update(arm, r).unwrap();
    }
    for arm in 0..3 {
        assert_eq!(a.belief(arm), b.belief(arm));
    }
    assert_eq!(a.estimate(0), Some(Estimate { numerator: 3, denominator: 5 }));
    assert_eq!(a.estimate(1), Some(Estimate { numerator: 2, denominator: 3 }));
    assert_eq!(a.estimate(2), Some(Estimate { numerator: 2, denominator: 4 }));
}

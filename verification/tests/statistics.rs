use segment_eval::stats::Ratio;
use segment_eval::stats::RunningStats;
use segment_eval::stats::Snapshot;
use segment_eval::stats::StatsError;

fn of(values: &[u32]) -> RunningStats {
    let mut stats = RunningStats::new();
    for &value in values {
        assert_eq!(stats.update(Some(value)), Ok(()));
    }
    stats
}

fn value(ratio: Ratio) -> f64 {
    ratio.numer as f64 / ratio.denom as f64
}

#[test]
fn one_to_five_have_mean_three_and_variance_two_and_a_half() {
    let stats = of(&[1, 2, 3, 4, 5]);
    assert_eq!(stats.count(), 5);
    assert_eq!(stats.mean(), Some(Ratio { numer: 15, denom: 5 }));
    assert_eq!(stats.variance(), Some(Ratio { numer: 50, denom: 20 }));
    assert_eq!(value(stats.mean().unwrap()), 3.0);
    assert_eq!(value(stats.variance().unwrap()), 2.5);
    assert_eq!(stats.min(), Some(1));
    assert_eq!(stats.max(), Some(5));
}

#[test]
fn the_order_of_the_updates_does_not_matter() {
    let forward = of(&[1, 2, 3, 4, 5]).snapshot();
    let backward = of(&[5, 4, 3, 2, 1]).snapshot();
    let mixed = of(&[3, 5, 1, 4, 2]).snapshot();
    assert_eq!(forward, backward);
    assert_eq!(forward, mixed);
}

#[test]
fn the_report_is_usable_after_every_update() {
    let mut stats = RunningStats::new();
    assert_eq!(
        stats.snapshot(),
        Snapshot { count: 0, excluded: 0, mean: None, variance: None, min: None, max: None }
    );
    stats.update(Some(7)).unwrap();
    assert_eq!(
        stats.snapshot(),
        Snapshot {
            count: 1,
            excluded: 0,
            mean: Some(Ratio { numer: 7, denom: 1 }),
            variance: None,
            min: Some(7),
            max: Some(7),
        }
    );
    stats.update(Some(3)).unwrap();
    assert_eq!(
        stats.snapshot(),
        Snapshot {
            count: 2,
            excluded: 0,
            mean: Some(Ratio { numer: 10, denom: 2 }),
            variance: Some(Ratio { numer: 16, denom: 2 }),
            min: Some(3),
            max: Some(7),
        }
    );
}

#[test]
fn undefined_observations_are_counted_and_left_out() {
    let mut stats = RunningStats::new();
    stats.update(Some(4)).unwrap();
    stats.update(None).unwrap();
    stats.update(Some(6)).unwrap();
    stats.update(None).unwrap();
    assert_eq!(stats.count(), 2);
    assert_eq!(stats.excluded(), 2);
    assert_eq!(stats.mean(), Some(Ratio { numer: 10, denom: 2 }));
    assert_eq!(stats.variance(), Some(Ratio { numer: 4, denom: 2 }));
}

#[test]
fn only_undefined_observations_leave_nothing_to_report() {
    let mut stats = RunningStats::new();
    for _ in 0..10 {
        stats.update(None).unwrap();
    }
    assert_eq!(
        stats.snapshot(),
        Snapshot { count: 0, excluded: 10, mean: None, variance: None, min: None, max: None }
    );
    assert_eq!(stats.squared_standard_error(), None);
}

#[test]
fn a_constant_metric_has_no_variance_and_no_margin_of_error() {
    for &constant in &[0u32, 1, 1_000_000_000, u32::MAX] {
        let stats = of(&[constant; 100]);
        let variance = stats.variance().unwrap();
        let error = stats.squared_standard_error().unwrap();
        assert_eq!(variance.numer, 0);
        assert_eq!(error.numer, 0);
        let margin_95 = 1.984 * value(error).sqrt();
        let margin_99 = 2.626 * value(error).sqrt();
        assert_eq!(margin_95, 0.0);
        assert_eq!(margin_99, 0.0);
        assert_eq!(stats.min(), Some(constant));
        assert_eq!(stats.max(), Some(constant));
    }
}

#[test]
fn the_squared_standard_error_is_the_variance_over_the_count() {
    let stats = of(&[1, 2, 3, 4, 5]);
    assert_eq!(stats.squared_standard_error(), Some(Ratio { numer: 50, denom: 100 }));
    let margin = 1.984 * value(stats.squared_standard_error().unwrap()).sqrt();
    assert!((margin - 1.984 * (2.5f64 / 5.0).sqrt()).abs() < 1e-12);
}

#[test]
fn the_largest_samples_do_not_overflow() {
    let stats = of(&[u32::MAX, 0, u32::MAX, 0]);
    let max = u32::MAX as u128;
    assert_eq!(stats.mean(), Some(Ratio { numer: 2 * max, denom: 4 }));
    // n * sum(x^2) - sum(x)^2 = 4 * 2 max^2 - 4 max^2
    assert_eq!(stats.variance(), Some(Ratio { numer: 4 * max * max, denom: 12 }));
    assert_eq!(stats.min(), Some(0));
    assert_eq!(stats.max(), Some(u32::MAX));
}

#[test]
fn the_exact_sums_agree_with_the_single_pass_rule() {
    let values: Vec<u32> = (0..200u32).map(|k| (k * 7919 + 13) % 1000).collect();
    let stats = of(&values);
    let mut mean = 0f64;
    let mut deviations = 0f64;
    for (k, &x) in values.iter().enumerate() {
        let x = x as f64;
        let old_mean = mean;
        mean = old_mean + (x - old_mean) / (k as f64 + 1.0);
        deviations += (x - old_mean) * (x - mean);
    }
    let variance = deviations / (values.len() as f64 - 1.0);
    assert!((value(stats.mean().unwrap()) - mean).abs() < 1e-9);
    assert!((value(stats.variance().unwrap()) - variance).abs() < 1e-6);
}

#[test]
fn merged_aggregators_report_as_one() {
    let mut left = of(&[1, 2]);
    left.update(None).unwrap();
    let mut right = of(&[3, 4, 5]);
    right.update(None).unwrap();
    assert_eq!(left.merge(&right), Ok(()));
    let mut whole = of(&[1, 2, 3, 4, 5]);
    whole.update(None).unwrap();
    whole.update(None).unwrap();
    assert_eq!(left.snapshot(), whole.snapshot());
    assert_eq!(left.squared_standard_error(), whole.squared_standard_error());
}

#[test]
fn merging_with_an_empty_aggregator_changes_nothing() {
    let mut stats = of(&[9, 4, 6]);
    let before = stats.snapshot();
    assert_eq!(stats.merge(&RunningStats::new()), Ok(()));
    assert_eq!(stats.snapshot(), before);
    let mut empty = RunningStats::new();
    assert_eq!(empty.merge(&stats), Ok(()));
    assert_eq!(empty.snapshot(), before);
}

/// An aggregator that has taken the value 5 `count` times, built by doubling.
fn fives(count: u64) -> RunningStats {
    let mut stats = RunningStats::new();
    let mut step = of(&[5]);
    let mut bit = 0;
    while (1u64 << bit) <= count {
        if count & (1u64 << bit) != 0 {
            stats.merge(&step).unwrap();
        }
        let mut copy = RunningStats::new();
        copy.merge(&step).unwrap();
        if step.merge(&copy).is_err() {
            break;
        }
        bit += 1;
    }
    stats
}

#[test]
fn a_full_aggregator_takes_nothing_more() {
    let mut stats = fives(u32::MAX as u64 - 3);
    for _ in 0..3 {
        stats.update(None).unwrap();
    }
    assert_eq!(stats.count(), u32::MAX - 3);
    assert_eq!(stats.excluded(), 3);
    let before = stats.snapshot();
    assert_eq!(stats.update(Some(5)), Err(StatsError::Full));
    assert_eq!(stats.update(None), Err(StatsError::Full));
    assert_eq!(stats.merge(&of(&[1])), Err(StatsError::Full));
    assert_eq!(stats.merge(&RunningStats::new()), Ok(()));
    assert_eq!(stats.snapshot(), before);
    let count = u32::MAX as u128 - 3;
    assert_eq!(before.mean, Some(Ratio { numer: 5 * count, denom: count }));
    assert_eq!(before.variance, Some(Ratio { numer: 0, denom: count * (count - 1) }));
}

#[test]
fn the_last_place_of_an_aggregator_can_be_taken() {
    let mut stats = fives(u32::MAX as u64 - 1);
    assert_eq!(stats.update(Some(7)), Ok(()));
    assert_eq!(stats.count(), u32::MAX);
    assert_eq!(stats.max(), Some(7));
    assert_eq!(stats.update(Some(7)), Err(StatsError::Full));
    let count = u32::MAX as u128;
    // n * sum(x^2) - sum(x)^2 with n - 1 fives and one seven is 4 (n - 1).
    assert_eq!(
        stats.variance(),
        Some(Ratio { numer: 4 * (count - 1), denom: count * (count - 1) })
    );
}

#[test]
fn aggregators_too_large_together_do_not_merge() {
    let mut left = fives(1 << 31);
    let right = fives(1 << 31);
    let before = left.snapshot();
    assert_eq!(left.merge(&right), Err(StatsError::Full));
    assert_eq!(left.snapshot(), before);
}

use savegame_analysis::stats::{put_deviations_into_buckets, spread_of_buckets, Spread};

fn standard_deviation(buckets: &[u64], range: u64) -> f32 {
    let spread = spread_of_buckets(buckets, range);
    let d = (spread.num_values - 1) as f64;
    (spread.squared_differences_sum as f64 / (d * d * d)).sqrt() as f32
}

#[test]
fn test_calculate_standard_deviation() {
    let buckets = [1, 0, 1];
    assert!((standard_deviation(&buckets, 1) - 1.4142135623730951).abs() < 0.000001);

    let buckets = [1, 2, 3, 2, 1];
    assert!((standard_deviation(&buckets, 2) - 1.224744871391589).abs() < 0.000001);

    let buckets = [
        7, 20, 32, 93, 178, 333, 517, 829, 1050, 1230, 1363, 1253, 1072, 807, 558, 319, 178, 94,
        43, 17, 4,
    ];
    assert!((standard_deviation(&buckets, 10) - 3.00175403186607).abs() < 0.0001);
    assert!((standard_deviation(&buckets, 10) - 3.00175403186607).abs() < 0.000001);
}

#[test]
fn spread_uses_one_less_than_the_count() {
    // values -1 and 1: sum 0, n - 1 = 1, squares (1 * -1 - 0)^2 + (1 * 1 - 0)^2
    assert_eq!(
        spread_of_buckets(&[1, 0, 1], 1),
        Spread { num_values: 2, value_sum: 0, squared_differences_sum: 2 }
    );
    // values 1 and 1: the mean is 2 / 1
    assert_eq!(
        spread_of_buckets(&[0, 0, 2], 1),
        Spread { num_values: 2, value_sum: 2, squared_differences_sum: 2 }
    );
    // values -1, -1, 0: the mean is -1 exactly
    assert_eq!(
        spread_of_buckets(&[2, 1, 0], 1),
        Spread { num_values: 3, value_sum: -2, squared_differences_sum: 4 }
    );
    // values 0, 0, 1: the mean is 1/2, not rounded; 3/4 scaled by 2^2
    let spread = spread_of_buckets(&[0, 2, 1], 1);
    assert_eq!(spread, Spread { num_values: 3, value_sum: 1, squared_differences_sum: 3 });
}

#[test]
fn buckets_round_to_whole_milliseconds() {
    let buckets = put_deviations_into_buckets(&[0, 499, 500, -500, -501, 180_000, 180_499, 180_500, -180_500, 1_000_000]);
    assert_eq!(buckets.len(), 361);
    assert_eq!(buckets[180], 2);
    assert_eq!(buckets[181], 1);
    assert_eq!(buckets[179], 2);
    assert_eq!(buckets[360], 2);
    assert_eq!(buckets[0], 0);
    assert_eq!(buckets.iter().sum::<u64>(), 7);
}

#[test]
fn empty_deviations_give_empty_buckets() {
    let buckets = put_deviations_into_buckets(&[]);
    assert_eq!(buckets, vec![0; 361]);
}

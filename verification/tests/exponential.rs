use glean_core::{Bucketing, ConfigurationError, PrecomputedExponential};

fn rounded_progression(min: u64, max: u64, bucket_count: usize) -> Vec<u64> {
    let mut table: Vec<u64> = Vec::new();
    for i in 0..bucket_count {
        let exponent = i as f64 / (bucket_count - 1) as f64;
        let value = (min as f64 * (max as f64 / min as f64).powf(exponent)).round() as u64;
        if table.last().map_or(true, |last| *last < value) {
            table.push(value);
        }
    }
    table
}

fn strictly_increasing(table: &[u64]) -> bool {
    table.windows(2).all(|pair| pair[0] < pair[1])
}

#[test]
fn exponential_table_is_the_rounded_progression() {
    let strategy = PrecomputedExponential::new(1, 500, 10).unwrap();
    assert_eq!(strategy.ranges(), &vec![1, 2, 4, 8, 16, 32, 63, 126, 251, 500]);
    assert_eq!(strategy.ranges(), &rounded_progression(1, 500, 10));
    assert_eq!(strategy.min(), 1);
    assert_eq!(strategy.max(), 500);
    assert_eq!(strategy.bucket_count(), 10);
}

#[test]
fn exponential_table_of_a_hundred_buckets() {
    let strategy = PrecomputedExponential::new(1, 60000, 100).unwrap();
    assert_eq!(strategy.ranges(), &rounded_progression(1, 60000, 100));
    assert_eq!(strategy.ranges().len(), 88);
    assert_eq!(
        &strategy.ranges()[..20],
        &[1, 2, 3, 4, 5, 6, 7, 8, 9, 10, 12, 13, 14, 16, 18, 20, 22, 25, 28, 31]
    );
    assert!(strictly_increasing(strategy.ranges()));
}

#[test]
fn exponential_table_drops_repeated_boundaries() {
    let strategy = PrecomputedExponential::new(1, 30, 50).unwrap();
    assert_eq!(
        strategy.ranges(),
        &vec![
            1, 2, 3, 4, 5, 6, 7, 8, 9, 10, 11, 12, 13, 14, 15, 16, 17, 18, 20, 21, 23, 24, 26,
            28, 30
        ]
    );
    assert!(strategy.ranges().len() <= strategy.bucket_count());
    assert!(strictly_increasing(strategy.ranges()));
}

#[test]
fn exponential_table_of_one_bucket() {
    let strategy = PrecomputedExponential::new(5, 6, 1).unwrap();
    assert_eq!(strategy.ranges(), &vec![5]);
    assert_eq!(strategy.sample_to_bucket_minimum(0), 5);
    assert_eq!(strategy.sample_to_bucket_minimum(5), 5);
    assert_eq!(strategy.sample_to_bucket_minimum(u64::MAX), 5);
}

#[test]
fn exponential_table_of_two_buckets() {
    let strategy = PrecomputedExponential::new(3, 17, 2).unwrap();
    assert_eq!(strategy.ranges(), &vec![3, 17]);
}

#[test]
fn exponential_table_from_zero() {
    let strategy = PrecomputedExponential::new(0, 100, 5).unwrap();
    assert_eq!(strategy.ranges(), &vec![0, 100]);
    let strategy = PrecomputedExponential::new(0, 1, 3).unwrap();
    assert_eq!(strategy.ranges(), &vec![0, 1]);
}

#[test]
fn exponential_table_of_neighbours() {
    let strategy = PrecomputedExponential::new(10, 11, 5).unwrap();
    assert_eq!(strategy.ranges(), &vec![10, 11]);
}

#[test]
fn exponential_table_over_the_whole_range() {
    let strategy = PrecomputedExponential::new(1, u64::MAX, 5).unwrap();
    assert_eq!(
        strategy.ranges(),
        &vec![1, 65536, 4294967296, 281474976710656, 18446744073709551615]
    );
    let strategy = PrecomputedExponential::new(100, u64::MAX, 4).unwrap();
    assert_eq!(
        strategy.ranges(),
        &vec![100, 56925463, 32405083758785, 18446744073709551615]
    );
}

#[test]
fn exponential_lookup_takes_the_last_boundary_not_above() {
    let strategy = PrecomputedExponential::new(1, 500, 10).unwrap();
    assert_eq!(strategy.sample_to_bucket_minimum(1), 1);
    assert_eq!(strategy.sample_to_bucket_minimum(2), 2);
    assert_eq!(strategy.sample_to_bucket_minimum(3), 2);
    assert_eq!(strategy.sample_to_bucket_minimum(4), 4);
    assert_eq!(strategy.sample_to_bucket_minimum(7), 4);
    assert_eq!(strategy.sample_to_bucket_minimum(62), 32);
    assert_eq!(strategy.sample_to_bucket_minimum(63), 63);
    assert_eq!(strategy.sample_to_bucket_minimum(250), 126);
    assert_eq!(strategy.sample_to_bucket_minimum(251), 251);
    assert_eq!(strategy.sample_to_bucket_minimum(499), 251);
    assert_eq!(strategy.sample_to_bucket_minimum(500), 500);
}

#[test]
fn exponential_lookup_clamps_below_and_above() {
    let strategy = PrecomputedExponential::new(10, 1000, 5).unwrap();
    assert_eq!(strategy.ranges(), &vec![10, 32, 100, 316, 1000]);
    assert_eq!(strategy.sample_to_bucket_minimum(0), 10);
    assert_eq!(strategy.sample_to_bucket_minimum(9), 10);
    assert_eq!(strategy.sample_to_bucket_minimum(10), 10);
    assert_eq!(strategy.sample_to_bucket_minimum(1000), 1000);
    assert_eq!(strategy.sample_to_bucket_minimum(1001), 1000);
    assert_eq!(strategy.sample_to_bucket_minimum(u64::MAX), 1000);
}

#[test]
fn exponential_lookup_is_monotonic() {
    let strategy = PrecomputedExponential::new(3, 700, 20).unwrap();
    let mut previous = strategy.sample_to_bucket_minimum(0);
    for sample in 1..=1000 {
        let minimum = strategy.sample_to_bucket_minimum(sample);
        assert!(previous <= minimum);
        previous = minimum;
    }
    assert!(previous <= strategy.sample_to_bucket_minimum(u64::MAX));
}

#[test]
fn exponential_minimum_falls_into_its_own_bucket() {
    let strategy = PrecomputedExponential::new(3, 700, 20).unwrap();
    for sample in 0..=1000 {
        let minimum = strategy.sample_to_bucket_minimum(sample);
        assert_eq!(strategy.sample_to_bucket_minimum(minimum), minimum);
        assert!(strategy.ranges().contains(&minimum));
    }
}

#[test]
fn exponential_rejects_no_buckets() {
    assert_eq!(
        PrecomputedExponential::new(1, 500, 0).err(),
        Some(ConfigurationError::NoBuckets)
    );
    assert_eq!(
        PrecomputedExponential::new(500, 1, 0).err(),
        Some(ConfigurationError::NoBuckets)
    );
}

#[test]
fn exponential_rejects_an_empty_range() {
    assert_eq!(
        PrecomputedExponential::new(5, 5, 10).err(),
        Some(ConfigurationError::EmptyRange)
    );
    assert_eq!(
        PrecomputedExponential::new(6, 5, 10).err(),
        Some(ConfigurationError::EmptyRange)
    );
    assert_eq!(
        PrecomputedExponential::new(0, 0, 1).err(),
        Some(ConfigurationError::EmptyRange)
    );
}

#[test]
fn exponential_same_parameters_same_table() {
    let first = PrecomputedExponential::new(2, 9000, 30).unwrap();
    let second = PrecomputedExponential::new(first.min(), first.max(), first.bucket_count()).unwrap();
    assert_eq!(first.ranges(), second.ranges());
}

use glean_core::{Bucketing, ConfigurationError, Functional};

#[test]
fn functional_zero_has_its_own_bucket() {
    for (base, per_magnitude) in [(2, 8), (2, 16), (10, 3), (3, 1), (u64::MAX, 1)] {
        let strategy = Functional::new(base, per_magnitude).unwrap();
        assert_eq!(strategy.sample_to_bucket_minimum(0), 0);
        assert_eq!(strategy.sample_to_bucket_index(0), None);
    }
}

#[test]
fn functional_boundaries_for_base_two() {
    let strategy = Functional::new(2, 8).unwrap();
    assert_eq!(strategy.base(), 2);
    assert_eq!(strategy.buckets_per_magnitude(), 8);
    assert_eq!(strategy.sample_to_bucket_minimum(1), 1);
    assert_eq!(strategy.sample_to_bucket_minimum(2), 2);
    assert_eq!(strategy.sample_to_bucket_minimum(3), 3);
    assert_eq!(strategy.sample_to_bucket_minimum(100), 99);
    assert_eq!(strategy.sample_to_bucket_minimum(107), 99);
    assert_eq!(strategy.sample_to_bucket_minimum(108), 108);
    assert_eq!(strategy.sample_to_bucket_minimum(1000), 939);
    assert_eq!(strategy.sample_to_bucket_minimum(2000), 1878);
    assert_eq!(strategy.sample_to_bucket_minimum(4294967295), 3938502376);
    assert_eq!(strategy.sample_to_bucket_minimum(4294967296), 4294967296);
}

#[test]
fn functional_indices_for_base_two() {
    let strategy = Functional::new(2, 8).unwrap();
    assert_eq!(strategy.sample_to_bucket_index(1), Some(4));
    assert_eq!(strategy.sample_to_bucket_index(2), Some(10));
    assert_eq!(strategy.sample_to_bucket_index(3), Some(14));
    assert_eq!(strategy.sample_to_bucket_index(8), Some(24));
    assert_eq!(strategy.sample_to_bucket_index(16), Some(32));
    assert_eq!(strategy.sample_to_bucket_index(100), Some(53));
    assert_eq!(strategy.sample_to_bucket_index(108), Some(54));
    assert_eq!(strategy.sample_to_bucket_index(4294967295), Some(255));
    assert_eq!(strategy.sample_to_bucket_index(4294967296), Some(256));
}

#[test]
fn functional_doubling_moves_eight_buckets_on() {
    let strategy = Functional::new(2, 8).unwrap();
    for sample in [5u64, 6, 8, 9, 14, 15, 16, 18, 32, 64, 94, 1000, 1 << 20, 1 << 40, 1 << 62] {
        let index = strategy.sample_to_bucket_index(sample).unwrap();
        let doubled = strategy.sample_to_bucket_index(2 * sample).unwrap();
        assert_eq!(doubled - index, 8);
    }
    for sample in 2u64..3000 {
        let index = strategy.sample_to_bucket_index(sample).unwrap();
        let doubled = strategy.sample_to_bucket_index(2 * sample).unwrap();
        assert!(index + 7 <= doubled && doubled <= index + 9);
    }
}

#[test]
fn functional_largest_samples() {
    let strategy = Functional::new(2, 8).unwrap();
    assert_eq!(
        strategy.sample_to_bucket_minimum(u64::MAX),
        16_915_738_899_553_466_671
    );
    assert_eq!(strategy.sample_to_bucket_index(u64::MAX), Some(511));
    assert_eq!(
        strategy.sample_to_bucket_minimum(9223372036854775807),
        8457869449776733335
    );
    assert_eq!(
        strategy.sample_to_bucket_minimum(9223372036854775808),
        9223372036854775808
    );
    let strategy = Functional::new(2, 16).unwrap();
    assert_eq!(
        strategy.sample_to_bucket_minimum(u64::MAX),
        17664662643191237676
    );
    assert_eq!(strategy.sample_to_bucket_index(u64::MAX), Some(1023));
}

#[test]
fn functional_boundaries_for_base_ten() {
    let strategy = Functional::new(10, 3).unwrap();
    let expected = [
        (1u64, 1u64),
        (2, 2),
        (3, 2),
        (4, 2),
        (5, 5),
        (9, 5),
        (10, 10),
        (21, 10),
        (22, 22),
        (46, 46),
        (47, 46),
        (99, 46),
        (100, 100),
        (999, 464),
        (1000, 1000),
        (u64::MAX, 10_000_000_000_000_000_000),
    ];
    for (sample, minimum) in expected {
        assert_eq!(strategy.sample_to_bucket_minimum(sample), minimum);
    }
    assert_eq!(strategy.sample_to_bucket_index(999), Some(8));
    assert_eq!(strategy.sample_to_bucket_index(1000), Some(9));
    assert_eq!(strategy.sample_to_bucket_index(u64::MAX), Some(57));
}

#[test]
fn functional_one_bucket_per_magnitude() {
    let strategy = Functional::new(3, 1).unwrap();
    for (sample, minimum) in [(1u64, 1u64), (2, 1), (3, 3), (8, 3), (9, 9), (26, 9), (27, 27)] {
        assert_eq!(strategy.sample_to_bucket_minimum(sample), minimum);
    }
    assert_eq!(
        strategy.sample_to_bucket_minimum(u64::MAX),
        12157665459056928801
    );
    let strategy = Functional::new(2, 1).unwrap();
    assert_eq!(strategy.sample_to_bucket_minimum(3), 2);
    assert_eq!(strategy.sample_to_bucket_minimum(4), 4);
    assert_eq!(strategy.sample_to_bucket_minimum(u64::MAX), 1 << 63);
    assert_eq!(strategy.sample_to_bucket_index(u64::MAX), Some(63));
}

#[test]
fn functional_largest_base() {
    let strategy = Functional::new(u64::MAX, 1).unwrap();
    assert_eq!(strategy.sample_to_bucket_minimum(1), 1);
    assert_eq!(strategy.sample_to_bucket_minimum(u64::MAX - 1), 1);
    assert_eq!(strategy.sample_to_bucket_minimum(u64::MAX), u64::MAX);
    assert_eq!(strategy.sample_to_bucket_index(u64::MAX), Some(1));
}

#[test]
fn functional_boundaries_for_base_seven() {
    let strategy = Functional::new(7, 2).unwrap();
    let expected = [(1u64, 1u64), (2, 1), (3, 3), (6, 3), (7, 7), (18, 7), (19, 19), (49, 49), (50, 49)];
    for (sample, minimum) in expected {
        assert_eq!(strategy.sample_to_bucket_minimum(sample), minimum);
    }
}

#[test]
fn functional_lookup_is_monotonic() {
    for (base, per_magnitude) in [(2, 8), (10, 3), (3, 1)] {
        let strategy = Functional::new(base, per_magnitude).unwrap();
        let mut previous = strategy.sample_to_bucket_minimum(0);
        for sample in 1..=2000 {
            let minimum = strategy.sample_to_bucket_minimum(sample);
            assert!(previous <= minimum);
            assert!(minimum <= sample);
            previous = minimum;
        }
        assert!(previous <= strategy.sample_to_bucket_minimum(u64::MAX));
    }
}

#[test]
fn functional_minimum_falls_into_its_own_bucket() {
    let strategy = Functional::new(2, 8).unwrap();
    for sample in 0..=2000 {
        let minimum = strategy.sample_to_bucket_minimum(sample);
        assert_eq!(strategy.sample_to_bucket_minimum(minimum), minimum);
    }
}

#[test]
fn functional_matches_the_rounded_powers() {
    let strategy = Functional::new(2, 8).unwrap();
    let ratio = 2f64.powf(1.0 / 8.0);
    for sample in [20u64, 50, 100, 500, 1000, 5000, 100_000] {
        let index = strategy.sample_to_bucket_index(sample).unwrap();
        let minimum = strategy.sample_to_bucket_minimum(sample);
        assert_eq!(minimum, ratio.powf(index as f64).round() as u64);
        assert!(minimum <= sample);
        assert!(sample < ratio.powf((index + 1) as f64).round() as u64);
    }
}

#[test]
fn functional_rejects_no_buckets_per_magnitude() {
    assert_eq!(
        Functional::new(2, 0).err(),
        Some(ConfigurationError::NoBucketsPerMagnitude)
    );
    assert_eq!(
        Functional::new(1, 0).err(),
        Some(ConfigurationError::NoBucketsPerMagnitude)
    );
}

#[test]
fn functional_rejects_a_base_up_to_one() {
    assert_eq!(Functional::new(1, 8).err(), Some(ConfigurationError::BaseTooSmall));
    assert_eq!(Functional::new(0, 8).err(), Some(ConfigurationError::BaseTooSmall));
}

use bloom_filters::sample::{seahash_bloom_filter, seahash_counting_bloom_filter};
use bloom_filters::utils::{optimal_bit_size, optimal_hash_count, SeaHashFn};
use bloom_filters::{BloomFilter, CountingBloomFilter, FilterError};

#[test]
fn test_optimal_hash_paramaters() {
    let bit_size = optimal_bit_size(100_000, 1, 100).unwrap();
    let hash_count = optimal_hash_count(100_000, bit_size);
    assert_eq!(bit_size, 958506);
    assert_eq!(hash_count, 7);

    let bit_size = optimal_bit_size(4000, 1, 50).unwrap();
    let hash_count = optimal_hash_count(4000, bit_size);
    assert_eq!(bit_size, 32570);
    assert_eq!(hash_count, 6);
}

#[test]
fn test_seahash_bloom_filter_properties() {
    let bloom = seahash_bloom_filter(100_000, 1, 100).unwrap();
    assert_eq!(bloom.bit_size(), 958506);
    assert_eq!(bloom.total_hashers(), 7);

    let bloom = seahash_bloom_filter(4000, 1, 50).unwrap();
    assert_eq!(bloom.bit_size(), 32570);
    assert_eq!(bloom.total_hashers(), 6);
}

#[test]
fn test_seahash_bloom_filter() {
    let mut bloom = seahash_bloom_filter(100_000, 1, 100).unwrap();
    bloom.insert("Bob");
    bloom.insert("John");
    bloom.insert("Toks");
    bloom.insert("Linda");

    assert!(bloom.check("Bob"));
    assert!(bloom.check("John"));
    assert!(bloom.check("Toks"));
    assert!(bloom.check("Linda"));
    assert!(!bloom.check("john1"));
    assert!(!bloom.check("toks1"));
    assert!(!bloom.check("linda1"));
}

#[test]
fn test_seahash_counting_bloom_filter_properties() {
    let bloom = seahash_counting_bloom_filter(100_000, 1, 100).unwrap();
    assert_eq!(bloom.bit_size(), 958506);
    assert_eq!(bloom.total_hashers(), 7);

    let bloom = seahash_counting_bloom_filter(4000, 1, 50).unwrap();
    assert_eq!(bloom.bit_size(), 32570);
    assert_eq!(bloom.total_hashers(), 6);
}

#[test]
fn test_check_for_seahash_counting_bloom_filter() {
    let mut bloom = seahash_counting_bloom_filter(100_000, 1, 100).unwrap();
    bloom.insert("Bob");
    bloom.insert("John");
    bloom.insert("Toks");
    bloom.insert("Linda");

    assert!(bloom.check("Bob"));
    assert!(bloom.check("John"));
    assert!(bloom.check("Toks"));
    assert!(bloom.check("Linda"));
    assert!(!bloom.check("john1"));
    assert!(!bloom.check("toks1"));
    assert!(!bloom.check("linda1"));
}

#[test]
fn test_delete_for_seahash_counting_bloom_filter() {
    let mut bloom = seahash_counting_bloom_filter(100_000, 1, 10).unwrap();
    bloom.delete("Bob");
    bloom.delete("Bob");
    assert!(!bloom.check("Bob"));

    bloom.insert("Bob");
    bloom.insert("John");
    bloom.insert("John");
    bloom.insert("Toks");
    bloom.insert("Toks");
    bloom.insert("Linda");

    bloom.delete("John");
    bloom.delete("Toks");
    assert!(bloom.check("Toks"));
    assert!(bloom.check("John"));

    bloom.delete("John");
    bloom.delete("Toks");
    assert!(!bloom.check("Toks"));
    assert!(!bloom.check("John"));
    assert!(bloom.check("Linda"));
}

#[test]
fn test_invalid_parameters() {
    assert_eq!(optimal_bit_size(0, 1, 100), Err(FilterError::InvalidParameter));
    assert_eq!(optimal_bit_size(100, 0, 100), Err(FilterError::InvalidParameter));
    assert_eq!(optimal_bit_size(100, 100, 100), Err(FilterError::InvalidParameter));
    assert_eq!(optimal_bit_size(100, 101, 100), Err(FilterError::InvalidParameter));
    assert!(seahash_bloom_filter(0, 1, 100).is_err());
    assert!(seahash_bloom_filter(100, 3, 2).is_err());
    assert!(seahash_counting_bloom_filter(0, 1, 100).is_err());
    assert!(seahash_counting_bloom_filter(100, 5, 5).is_err());
}

#[test]
fn test_hash_count_clamped_to_one() {
    assert_eq!(optimal_hash_count(1000, 1), 1);
    assert_eq!(optimal_hash_count(7, 0), 1);
}

#[test]
fn test_fixed_seed_bloom_filter_no_false_negative() {
    let hashers = vec![
        SeaHashFn::with_seeds(1, 2, 3, 4),
        SeaHashFn::with_seeds(5, 6, 7, 8),
        SeaHashFn::with_seeds(9, 10, 11, 12),
    ];
    let mut bloom = BloomFilter::new(1000, hashers);
    assert!(!bloom.check("Bob"));
    assert!(!bloom.check("Linda"));
    bloom.insert("Bob");
    assert!(bloom.check("Bob"));
    bloom.insert("Linda");
    assert!(bloom.check("Bob"));
    assert!(bloom.check("Linda"));
    assert_eq!(bloom.bit_size(), 1000);
    assert_eq!(bloom.total_hashers(), 3);
}

#[test]
fn test_fixed_seed_counting_reference_counts() {
    let hashers = vec![
        SeaHashFn::with_seeds(21, 22, 23, 24),
        SeaHashFn::with_seeds(25, 26, 27, 28),
    ];
    let mut bloom = CountingBloomFilter::new(500, hashers);
    assert!(!bloom.check("Bob"));
    bloom.insert("Bob");
    bloom.insert("Bob");
    bloom.delete("Bob");
    assert!(bloom.check("Bob"));
    bloom.delete("Bob");
    assert!(!bloom.check("Bob"));
    bloom.delete("Bob");
    assert!(!bloom.check("Bob"));
}

#[test]
fn test_downgrade_keeps_answers_and_shape() {
    let mut counting = seahash_counting_bloom_filter(4000, 1, 50).unwrap();
    counting.insert("Bob");
    counting.insert("John");
    counting.insert("John");
    counting.delete("John");

    let before_bob = counting.check("Bob");
    let before_john = counting.check("John");
    let before_toks = counting.check("Toks");
    let bit_size = counting.bit_size();
    let total = counting.total_hashers();

    let mut plain = counting.downgrade();
    assert_eq!(plain.bit_size(), bit_size);
    assert_eq!(plain.total_hashers(), total);
    assert_eq!(plain.check("Bob"), before_bob);
    assert_eq!(plain.check("John"), before_john);
    assert_eq!(plain.check("Toks"), before_toks);
    assert!(before_bob);
    assert!(before_john);
}

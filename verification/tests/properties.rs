//! End-to-end behaviour: no false negatives, byte-exact idempotence and
//! cancellation, union semantics, round trips through every export width,
//! determinism, and the empirical false-positive rate.

use fastbloom_rs::BloomFilter;
use fastbloom_rs::CountingBloomFilter;
use fastbloom_rs::FilterBuilder;

#[test]
fn membership_basic() {
    let mut bloom = FilterBuilder::new(10_000, 1, 100).unwrap().build_bloom_filter();
    bloom.add(b"hello");
    assert_eq!(bloom.contains(b"hello"), true);
    assert_eq!(bloom.contains(b"world"), false);
}

#[test]
fn no_false_negatives_across_many_adds() {
    let mut bloom = FilterBuilder::new(10_000, 1, 100).unwrap().build_bloom_filter();
    for i in 0..1000i64 {
        bloom.add(&i.to_le_bytes());
    }
    for i in 0..1000i64 {
        assert!(bloom.contains(&i.to_le_bytes()));
    }
}

#[test]
fn repeated_add_is_byte_exact_idempotent() {
    let mut bloom = FilterBuilder::new(10_000, 1, 100).unwrap().build_bloom_filter();
    bloom.add(b"hello");
    let once = bloom.get_u8_array();
    bloom.add(b"hello");
    assert_eq!(bloom.get_u8_array(), once);
}

#[test]
fn remove_cancels_add_byte_exact() {
    let mut builder = FilterBuilder::new(10_000, 1, 100).unwrap();
    builder.enable_repeat_insert(true);
    let mut cbf = builder.build_counting_bloom_filter();
    cbf.add(b"resident");
    let before = cbf.get_u8_array();
    for _ in 0..3 {
        cbf.add(b"guest");
    }
    assert!(cbf.contains(b"guest"));
    for _ in 0..3 {
        cbf.remove(b"guest");
    }
    assert_eq!(cbf.get_u8_array(), before);
    assert!(cbf.contains(b"resident"));
    assert!(!cbf.contains(b"guest"));
}

#[test]
fn union_covers_both_operands() {
    let mut a = FilterBuilder::new(10_000, 1, 100).unwrap().build_bloom_filter();
    let mut b = FilterBuilder::new(10_000, 1, 100).unwrap().build_bloom_filter();
    a.add(b"a");
    b.add(b"b");
    assert_eq!(a.union(&b), true);
    assert_eq!(a.contains(b"a"), true);
    assert_eq!(a.contains(b"b"), true);
}

#[test]
fn intersection_implies_both_operands() {
    let mut a = FilterBuilder::new(10_000, 1, 100).unwrap().build_bloom_filter();
    let mut b = FilterBuilder::new(10_000, 1, 100).unwrap().build_bloom_filter();
    a.add(b"both");
    a.add(b"only a");
    b.add(b"both");
    b.add(b"only b");
    assert_eq!(a.intersect(&b), true);
    assert!(a.contains(b"both"));
    assert!(!a.contains(b"only a"));
    assert!(!a.contains(b"only b"));
}

#[test]
fn round_trip_through_every_width() {
    let mut bloom = FilterBuilder::new(10_000, 1, 100).unwrap().build_bloom_filter();
    for i in 0..100i64 {
        bloom.add(&i.to_le_bytes());
    }
    let k = bloom.hashes();

    let from8 = BloomFilter::from_u8_array(&bloom.get_u8_array(), k).unwrap();
    let from16 = BloomFilter::from_u16_array(&bloom.get_u16_array(), k).unwrap();
    let from32 = BloomFilter::from_u32_array(&bloom.get_u32_array(), k).unwrap();
    let from64 = BloomFilter::from_u64_array(&bloom.get_u64_array(), k).unwrap();
    for f in [&from8, &from16, &from32, &from64] {
        assert!(f.config().is_compatible_to(&bloom.config()));
        assert_eq!(f.bit_set.storage, bloom.bit_set.storage);
        for i in 0..100i64 {
            assert!(f.contains(&i.to_le_bytes()));
        }
        assert_eq!(f.contains(b"absent"), bloom.contains(b"absent"));
    }
}

#[test]
fn independently_built_filters_are_bit_identical() {
    let mut a = FilterBuilder::new(10_000, 1, 100).unwrap().build_bloom_filter();
    let mut b = FilterBuilder::new(10_000, 1, 100).unwrap().build_bloom_filter();
    for i in 0..500i64 {
        a.add(&i.to_le_bytes());
        b.add(&i.to_le_bytes());
    }
    assert_eq!(a.get_u8_array(), b.get_u8_array());
    assert_eq!(a.get_u64_array(), b.get_u64_array());
}

#[test]
fn empirical_false_positive_rate() {
    let n = 100_000i64;
    let mut bloom = FilterBuilder::new(n as u64, 1, 100).unwrap().build_bloom_filter();
    for i in 1..n {
        bloom.add(&i.to_le_bytes());
    }
    let mut positives = 0i64;
    for i in (n + 1)..(2 * n) {
        if bloom.contains(&i.to_le_bytes()) {
            positives += 1;
        }
    }
    // expected n * p = 1000; overwhelmingly below twice that
    println!("false positives: {positives}");
    assert!(positives <= 2 * n / 100);
}

#[test]
fn estimated_cardinality_inputs_track_additions() {
    // the library exposes the zero-bit count that a cardinality estimate
    // of -(m/k) * ln(1 - z/m) consumes; it must drop as elements arrive
    let mut bloom = FilterBuilder::new(10_000, 1, 100).unwrap().build_bloom_filter();
    let m = bloom.config.size as u32;
    assert_eq!(bloom.bit_set.count_zeros(), m);
    bloom.add(b"hello");
    let zeros_after_one = bloom.bit_set.count_zeros();
    assert!(zeros_after_one >= m - bloom.hashes() && zeros_after_one < m);
}

//! Tests of the counting Bloom filter: add, remove, repeat-insert
//! suppression, reconstruction from exported images, and counters.

use fastbloom_rs::CountingBloomFilter;
use fastbloom_rs::FilterBuilder;
use fastbloom_rs::FilterError;

#[test]
fn counting_bloom_test() {
    let mut builder = FilterBuilder::new(10_000, 1, 100).unwrap();
    let mut bloom = builder.build_counting_bloom_filter();

    bloom.add(b"hello");

    assert_eq!(bloom.contains(b"hello"), true);

    bloom.remove(b"hello");
    assert_eq!(bloom.contains(b"hello"), false);
}

#[test]
fn counting_bloom_repeat_test() {
    let mut builder = FilterBuilder::new(100_000, 1, 100).unwrap();
    // enable_repeat_insert is true
    builder.enable_repeat_insert(true);
    let mut cbf = builder.build_counting_bloom_filter();
    cbf.add(b"hello"); // modify underlying vector counter.
    cbf.add(b"hello"); // modify underlying vector counter.
    assert_eq!(cbf.contains(b"hello"), true);
    cbf.remove(b"hello");
    assert_eq!(cbf.contains(b"hello"), true);
    cbf.remove(b"hello");
    assert_eq!(cbf.contains(b"hello"), false);

    // enable_repeat_insert is false
    builder.enable_repeat_insert(false);
    let mut cbf = builder.build_counting_bloom_filter();
    cbf.add(b"hello"); // modify underlying vector counter.
    cbf.add(b"hello"); // not modify underlying vector counter because b"hello" has been added.
    assert_eq!(cbf.contains(b"hello"), true);
    cbf.remove(b"hello");
    assert_eq!(cbf.contains(b"hello"), false);
}

#[test]
fn counting_bloom_from_test() {
    let mut builder = FilterBuilder::new(100_000, 1, 100).unwrap();
    let mut cbf = builder.build_counting_bloom_filter();

    cbf.add(b"hello");
    cbf.add(b"hello");

    let mut cbf_copy =
        CountingBloomFilter::from_u8_array(&cbf.get_u8_array(), builder.hashes, true).unwrap();
    assert_eq!(cbf_copy.contains(b"hello"), true);
    cbf_copy.remove(b"hello");
    assert_eq!(cbf_copy.contains(b"hello"), true);
    cbf_copy.remove(b"hello");
    assert_eq!(cbf_copy.contains(b"hello"), false);

    let mut cbf_copy =
        CountingBloomFilter::from_u16_array(&cbf.get_u16_array(), builder.hashes, true).unwrap();
    assert_eq!(cbf_copy.contains(b"hello"), true);
    cbf_copy.remove(b"hello");
    assert_eq!(cbf_copy.contains(b"hello"), true);
    cbf_copy.remove(b"hello");
    assert_eq!(cbf_copy.contains(b"hello"), false);

    let mut cbf_copy =
        CountingBloomFilter::from_u32_array(&cbf.get_u32_array(), builder.hashes, true).unwrap();
    assert_eq!(cbf_copy.contains(b"hello"), true);
    cbf_copy.remove(b"hello");
    assert_eq!(cbf_copy.contains(b"hello"), true);
    cbf_copy.remove(b"hello");
    assert_eq!(cbf_copy.contains(b"hello"), false);

    let mut cbf_copy =
        CountingBloomFilter::from_u64_array(&cbf.get_u64_array(), builder.hashes, true).unwrap();
    assert_eq!(cbf_copy.contains(b"hello"), true);
    cbf_copy.remove(b"hello");
    assert_eq!(cbf_copy.contains(b"hello"), true);
    cbf_copy.remove(b"hello");
    assert_eq!(cbf_copy.contains(b"hello"), false);
}

#[test]
fn counting_bloom_hash_indices_test() {
    let mut builder = FilterBuilder::new(10_000, 1, 100).unwrap();
    let mut bloom = builder.build_counting_bloom_filter();

    bloom.add(b"hello");

    assert_eq!(bloom.contains(b"hello"), true);
    assert_eq!(bloom.contains_hash_indices(&bloom.get_hash_indices(b"hello")), true);
    assert_eq!(bloom.contains_hash_indices(&bloom.get_hash_indices(b"world")), false);

    bloom.remove(b"hello");
    assert_eq!(bloom.contains(b"hello"), false);
    assert_eq!(bloom.contains_hash_indices(&bloom.get_hash_indices(b"hello")), false);
}

#[test]
fn counting_bloom_estimate_count() {
    let mut builder = FilterBuilder::new(10_000, 1, 100).unwrap();
    let mut bloom = builder.build_counting_bloom_filter();

    bloom.add(b"hello");
    bloom.add(b"world");

    assert_eq!(bloom.estimate_count(b"hello"), 1);
    let indices = bloom.get_hash_indices(b"hello");

    for index in indices {
        assert_eq!(bloom.counter_at(index), 1)
    }

    assert_eq!(bloom.estimate_count(b"world"), 1);
    for index in bloom.get_hash_indices(b"world") {
        assert!(bloom.counter_at(index) <= 2);
    }
}

#[test]
fn counting_union_and_intersect_keep_membership() {
    let mut builder = FilterBuilder::new(10_000, 1, 100).unwrap();
    let mut a = builder.build_counting_bloom_filter();
    let mut b = builder.build_counting_bloom_filter();
    a.add(b"a");
    b.add(b"b");
    assert_eq!(a.union(&b), true);
    assert!(a.contains(b"a"));
    assert!(a.contains(b"b"));

    let mut c = builder.build_counting_bloom_filter();
    let mut d = builder.build_counting_bloom_filter();
    c.add(b"a");
    c.add(b"b");
    d.add(b"a");
    assert_eq!(c.intersect(&d), true);
    assert!(c.contains(b"a"));
}

#[test]
fn counting_add_if_not_contains_reports_prior_absence() {
    let mut builder = FilterBuilder::new(10_000, 1, 100).unwrap();
    let mut cbf = builder.build_counting_bloom_filter();
    assert_eq!(cbf.add_if_not_contains(b"hello"), true);
    assert_eq!(cbf.add_if_not_contains(b"hello"), false);
    cbf.remove(b"hello");
    assert_eq!(cbf.contains(b"hello"), false);
}

#[test]
fn counting_reconstruction_rejects_bad_buffers() {
    assert_eq!(
        CountingBloomFilter::from_u8_array(&[0u8; 12], 4, true).unwrap_err(),
        FilterError::IncompatibleSize
    );
    assert_eq!(
        CountingBloomFilter::from_u8_array(&[], 4, true).unwrap_err(),
        FilterError::IncompatibleSize
    );
    assert_eq!(
        CountingBloomFilter::from_u8_array(&[0u8; 32], 0, true).unwrap_err(),
        FilterError::InvalidParameters
    );
    assert_eq!(
        CountingBloomFilter::from_u64_array(&[0u64; 3], 4, true).unwrap_err(),
        FilterError::IncompatibleSize
    );
}

#[test]
fn counting_clear_resets_counters() {
    let mut builder = FilterBuilder::new(10_000, 1, 100).unwrap();
    let mut cbf = builder.build_counting_bloom_filter();
    cbf.add(b"hello");
    cbf.clear();
    assert!(!cbf.contains(b"hello"));
    assert!(cbf.counting_vec.storage.iter().all(|w| *w == 0));
    assert!(!cbf.is_empty());
}

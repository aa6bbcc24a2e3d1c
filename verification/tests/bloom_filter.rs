//! Tests of the plain Bloom filter: membership, hash indices, exports,
//! reconstruction, union and intersection.

use fastbloom_rs::BloomFilter;
use fastbloom_rs::FilterBuilder;
use fastbloom_rs::FilterError;

#[test]
fn bloom_bloom_test() {
    let mut builder = FilterBuilder::new(10_000_000, 1, 100).unwrap();
    let mut bloom = builder.build_bloom_filter();
    println!("{:?}", bloom.config);
    bloom.add(b"hello");
    println!("{:?}", &bloom.bit_set.storage[0..300]);
    assert_eq!(bloom.contains(b"hello"), true);
    assert_eq!(bloom.contains(b"world"), false);

    let storage = &bloom.bit_set.storage[0..300];
    println!("{:?}", storage);

    let bloom2 = BloomFilter::from_u64_array(&bloom.get_u64_array(), bloom.hashes()).unwrap();
    assert_eq!(bloom2.config().is_compatible_to(&bloom.config()), true);
    assert_eq!(bloom2.contains(b"hello"), true);
    assert_eq!(bloom2.contains(b"world"), false);

    let mut bloom3 =
        BloomFilter::from_u32_array(&bloom.get_u32_array(), bloom.config.hashes).unwrap();
    assert_eq!(bloom3.config().is_compatible_to(&bloom.config()), true);
    assert_eq!(bloom3.contains(b"hello"), true);
    assert_eq!(bloom3.contains(b"world"), false);

    let u8_array = bloom.get_u8_array();
    let mut bloom4 = BloomFilter::from_u8_array(&u8_array, bloom.config.hashes).unwrap();
    println!("{:?}", &bloom4.bit_set.storage[0..300]);
    assert_eq!(bloom4.config().is_compatible_to(&bloom.config()), true);
    assert_eq!(bloom4.contains(b"hello"), true);
    assert_eq!(bloom4.contains(b"world"), false);

    let bloom5 = BloomFilter::from_u16_array(&bloom.get_u16_array(), bloom.hashes()).unwrap();
    assert_eq!(bloom5.config().is_compatible_to(&bloom.config()), true);
    assert_eq!(bloom5.contains(b"hello"), true);
    assert_eq!(bloom5.contains(b"world"), false);

    bloom4.add(b"hello world");

    assert_eq!(bloom.intersect(&bloom4), true);
    assert_eq!(bloom.contains(b"hello"), true);
    assert_eq!(bloom.contains(b"hello world"), false);

    bloom3.add(b"hello world");
    bloom3.add(b"hello yankun");

    assert_eq!(bloom3.union(&bloom4), true);
    assert_eq!(bloom3.contains(b"hello"), true);
    assert_eq!(bloom3.contains(b"hello world"), true);
    assert_eq!(bloom3.contains(b"hello yankun"), true);
}

#[test]
fn bloom_hash_indices_test() {
    let mut builder = FilterBuilder::new(10_000, 1, 100).unwrap();
    let mut bloom = builder.build_bloom_filter();
    println!("{:?}", bloom.config);
    bloom.add(b"hello");
    assert_eq!(bloom.contains(b"hello"), true);
    assert_eq!(bloom.contains(b"world"), false);

    let indices = bloom.get_hash_indices(b"hello");
    println!("{:?}", indices);
    assert_eq!(bloom.contains_hash_indices(&indices), true);
    assert_eq!(bloom.contains_hash_indices(&bloom.get_hash_indices(b"world")), false);
}

#[test]
fn builder_test() {
    let mut bloom = FilterBuilder::new(100_000_000, 1, 100).unwrap().build_bloom_filter();
    bloom.add(b"helloworld");
    assert_eq!(bloom.contains(b"helloworld"), true);
    assert_eq!(bloom.contains(b"helloworld!"), false);
}

#[test]
fn add_if_not_contains_reports_prior_absence() {
    let mut bloom = FilterBuilder::new(10_000, 1, 100).unwrap().build_bloom_filter();
    assert_eq!(bloom.add_if_not_contains(b"hello"), true);
    assert_eq!(bloom.contains(b"hello"), true);
    assert_eq!(bloom.add_if_not_contains(b"hello"), false);
    assert_eq!(bloom.contains(b"hello"), true);
}

#[test]
fn clear_empties_the_filter() {
    let mut bloom = FilterBuilder::new(10_000, 1, 100).unwrap().build_bloom_filter();
    bloom.add(b"hello");
    assert!(bloom.contains(b"hello"));
    bloom.clear();
    assert!(!bloom.contains(b"hello"));
    assert!(bloom.bit_set.storage.iter().all(|w| *w == 0));
    assert!(!bloom.is_empty());
}

#[test]
fn incompatible_filters_are_left_unchanged() {
    let mut a = FilterBuilder::new(10_000, 1, 100).unwrap().build_bloom_filter();
    let b = FilterBuilder::new(20_000, 1, 100).unwrap().build_bloom_filter();
    a.add(b"hello");
    let image = a.get_u8_array();
    assert_eq!(a.union(&b), false);
    assert_eq!(a.get_u8_array(), image);
    assert_eq!(a.intersect(&b), false);
    assert_eq!(a.get_u8_array(), image);
}

#[test]
fn reconstruction_rejects_bad_buffers() {
    // not a whole number of 64-bit words
    assert_eq!(
        BloomFilter::from_u8_array(&[0u8; 12], 4).unwrap_err(),
        FilterError::IncompatibleSize
    );
    // empty buffer
    assert_eq!(BloomFilter::from_u8_array(&[], 4).unwrap_err(), FilterError::IncompatibleSize);
    // no hash functions
    assert_eq!(
        BloomFilter::from_u8_array(&[0u8; 16], 0).unwrap_err(),
        FilterError::InvalidParameters
    );
    assert_eq!(
        BloomFilter::from_u16_array(&[0u16; 2], 4).unwrap_err(),
        FilterError::IncompatibleSize
    );
    assert_eq!(
        BloomFilter::from_u32_array(&[0u32; 3], 4).unwrap_err(),
        FilterError::IncompatibleSize
    );
    assert_eq!(BloomFilter::from_u64_array(&[], 4).unwrap_err(), FilterError::IncompatibleSize);
}

//! Tests of the parameter derivation: the closed-form sizes, validation,
//! monotonicity in the probability, and the inverse derivation.

use fastbloom_rs::FilterBuilder;
use fastbloom_rs::FilterError;
use fastbloom_rs::math::optimal_k;
use fastbloom_rs::math::optimal_m;
use fastbloom_rs::math::optimal_n;
use fastbloom_rs::math::optimal_p;

#[test]
fn optimal_test() {
    let m = optimal_m(100_000_000, 1, 100);
    let k = optimal_k(100_000_000, m);
    let n = optimal_n(k, m);
    let p = optimal_p(k, m, n);
    println!("{m} {k} {n} {p}");
    assert_eq!(m, 958505856);
    assert_eq!(k, 7)
}

#[test]
fn derived_sizes_are_word_aligned() {
    let m = optimal_m(10_000, 1, 100);
    assert_eq!(m, 95872);
    assert_eq!(m % 64, 0);
    assert_eq!(optimal_k(10_000, m), 7);
    let m = optimal_m(100_000, 1, 100);
    assert_eq!(m, 958528);
    assert_eq!(optimal_k(100_000, m), 7);
    let m = optimal_m(1000, 1, 1000);
    assert_eq!(m, 14400);
    assert_eq!(optimal_k(1000, m), 10);
}

#[test]
fn smaller_probability_never_shrinks_parameters() {
    // the same capacity with p = 1/100, 1/1000 and 1/100000
    let n = 50_000u64;
    let m1 = optimal_m(n, 1, 100);
    let m2 = optimal_m(n, 1, 1000);
    let m3 = optimal_m(n, 1, 100_000);
    assert!(m2 >= m1);
    assert!(m3 >= m2);
    let k1 = optimal_k(n, m1);
    let k2 = optimal_k(n, m2);
    let k3 = optimal_k(n, m3);
    assert!(k2 >= k1);
    assert!(k3 >= k2);
}

#[test]
fn builder_validation() {
    assert_eq!(FilterBuilder::new(0, 1, 100).unwrap_err(), FilterError::InvalidParameters);
    assert_eq!(FilterBuilder::new(100, 0, 100).unwrap_err(), FilterError::InvalidParameters);
    assert_eq!(FilterBuilder::new(100, 100, 100).unwrap_err(), FilterError::InvalidParameters);
    assert_eq!(FilterBuilder::new(100, 101, 100).unwrap_err(), FilterError::InvalidParameters);
    assert!(FilterBuilder::new(100, 1, 2).is_ok());

    assert_eq!(
        FilterBuilder::from_size_and_hashes(0, 1).unwrap_err(),
        FilterError::InvalidParameters
    );
    assert_eq!(
        FilterBuilder::from_size_and_hashes(63, 1).unwrap_err(),
        FilterError::InvalidParameters
    );
    assert_eq!(
        FilterBuilder::from_size_and_hashes(128, 0).unwrap_err(),
        FilterError::InvalidParameters
    );
    let b = FilterBuilder::from_size_and_hashes(958505856, 7).unwrap();
    assert!(b.done);
    assert_eq!(b.size, 958505856);
    assert_eq!(b.hashes, 7);
    // the inverse derivation recovers roughly the capacity the size was made for
    assert_eq!(b.expected_elements, optimal_n(7, 958505856));
    assert!(b.expected_elements >= 94_000_000 && b.expected_elements <= 96_000_000);
    // and an informational probability close to the one it was derived from
    assert!(b.false_positive_numerator >= 1);
    assert!(b.false_positive_numerator < b.false_positive_denominator);
    let p_approx = b.false_positive_numerator as f64 / b.false_positive_denominator as f64;
    assert!((p_approx - 0.0078).abs() < 0.001);
}

#[test]
fn complete_is_idempotent() {
    let mut b = FilterBuilder::new(10_000, 1, 100).unwrap();
    assert!(!b.done);
    b.complete();
    let frozen = b.clone();
    b.complete();
    assert_eq!(b, frozen);
    assert_eq!(b.size, 95872);
    assert_eq!(b.hashes, 7);
}

#[test]
fn compatibility_depends_only_on_size_and_hashes() {
    let mut a = FilterBuilder::new(10_000, 1, 100).unwrap();
    let mut b = FilterBuilder::new(10_000, 1, 100).unwrap();
    b.expected_elements(9_999);
    a.complete();
    b.size = a.size;
    b.hashes = a.hashes;
    assert!(a.is_compatible_to(&b));
    b.hashes = a.hashes + 1;
    assert!(!a.is_compatible_to(&b));
}

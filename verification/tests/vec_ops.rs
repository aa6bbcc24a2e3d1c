//! Tests of the word-addressed bit vector and the 4-bit counting vector.

use fastbloom_rs::vec::BloomBitVec;
use fastbloom_rs::vec::CountingVec;

#[test]
fn test_vec() {
    let mut vec = BloomBitVec::new(16);
    vec.set(37);
    vec.set(38);
    println!("{:?}", vec);
    assert_eq!(vec.get(37), true);
    assert_eq!(vec.get(38), true);
}

#[test]
fn test_size() {
    let vec = BloomBitVec::new(1);
    println!("{}", vec.nbits);
    assert_eq!(vec.nbits, 64);
}

#[test]
fn test_count_vec() {
    let mut vec = CountingVec::new(10);
    vec.increment(7);

    assert_eq!(1, vec.get(7))
}

#[test]
fn test_count_zeros() {
    let mut vec = BloomBitVec::new(4);
    vec.set(37);
    vec.set(30);
    vec.set(38);
    println!("{:?}", vec);
    assert_eq!(vec.count_zeros(), 253);
}

#[test]
fn shift_test() {
    assert_eq!(32 >> 5, 1);
}

#[test]
fn bit_vec_set_get_isolated() {
    let mut vec = BloomBitVec::new(2);
    vec.set(0);
    vec.set(63);
    vec.set(64);
    assert!(vec.get(0));
    assert!(vec.get(63));
    assert!(vec.get(64));
    assert!(!vec.get(1));
    assert!(!vec.get(65));
    assert_eq!(vec.storage[0], (1u64 << 63) | 1);
    assert_eq!(vec.storage[1], 1);
}

#[test]
fn bit_vec_combinators_exact_words() {
    let mut a = BloomBitVec::new(1);
    let mut b = BloomBitVec::new(1);
    a.storage[0] = 0b1100;
    b.storage[0] = 0b1010;

    let mut v = a.clone();
    v.or(&b);
    assert_eq!(v.storage[0], 0b1110);

    let mut v = a.clone();
    v.and(&b);
    assert_eq!(v.storage[0], 0b1000);

    let mut v = a.clone();
    v.xor(&b);
    assert_eq!(v.storage[0], 0b0110);

    let mut v = a.clone();
    v.nor(&b);
    assert_eq!(v.storage[0], !0b1110u64);

    let mut v = a.clone();
    v.xnor(&b);
    assert_eq!(v.storage[0], !0b0110u64);

    let mut v = a.clone();
    v.nand(&b);
    assert_eq!(v.storage[0], !0b1000u64);

    let mut v = a.clone();
    v.difference(&b);
    assert_eq!(v.storage[0], 0b0100);

    a.clear();
    assert_eq!(a.storage[0], 0);
    assert!(!a.is_empty());
    assert!(BloomBitVec::new(0).is_empty());

    let ones = BloomBitVec::from_elem(1, true);
    assert_eq!(ones.storage[0], u64::MAX);
    assert_eq!(ones.count_zeros(), 0);
    b.storage[0] = 0;
    b.set(5);
    assert_eq!(b.count_zeros(), 63);
}

#[test]
fn counting_vec_saturates_and_floors() {
    let mut vec = CountingVec::new(1);
    for _ in 0..20 {
        vec.increment(3);
    }
    assert_eq!(vec.get(3), 15);
    // the neighbours of a saturated counter are untouched
    assert_eq!(vec.get(2), 0);
    assert_eq!(vec.get(4), 0);
    for _ in 0..20 {
        vec.decrement(3);
    }
    assert_eq!(vec.get(3), 0);
    // a decrement of an empty counter is a no-op
    vec.decrement(5);
    assert_eq!(vec.get(5), 0);
    assert_eq!(vec.storage[0], 0);
}

#[test]
fn counting_vec_nibble_layout() {
    // counter 0 occupies the most significant nibble of the first word
    let mut vec = CountingVec::new(1);
    vec.increment(0);
    assert_eq!(vec.storage[0], 1u64 << 60);
    vec.increment(15);
    assert_eq!(vec.storage[0], (1u64 << 60) | 1);
}

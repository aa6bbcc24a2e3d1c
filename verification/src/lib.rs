//! A verified probabilistic set-membership library: a classical Bloom filter
//! and a counting Bloom filter with deletion, both over word-addressed
//! backing storage that can be exported and reconstructed as arrays of
//! 8-, 16-, 32- or 64-bit words.

pub mod bloom;
pub mod builder;
pub mod codec;
pub mod counting;
pub mod math;
pub mod vec;

use vstd::prelude::*;

pub use crate::bloom::BloomFilter;
pub use crate::counting::CountingBloomFilter;
pub use crate::builder::FilterBuilder;
pub use crate::builder::FilterError;
pub use crate::vec::BloomBitVec;
pub use crate::vec::CountingVec;

verus! {

/// The membership surface shared by the plain and the counting filter.
pub trait Membership {
    /// The implementor's structural invariant.
    spec fn inv(&self) -> bool;

    /// The number of addressable slots: probed positions stay below it.
    spec fn capacity(&self) -> u64;

    /// Adds an element to the filter.
    fn add(&mut self, element: &[u8])
        requires
            old(self).inv(),
        ensures
            final(self).inv(),
    ;

    /// Tests whether an element is possibly present.
    fn contains(&self, element: &[u8]) -> bool
        requires
            self.inv(),
    ;

    /// Returns the probed positions of an element, each below the capacity.
    fn get_hash_indices(&self, element: &[u8]) -> (r: Vec<u64>)
        requires
            self.inv(),
        ensures
            forall|i: int| 0 <= i < r@.len() ==> r@[i] < self.capacity(),
    ;

    /// Tests whether every listed position is occupied.
    fn contains_hash_indices(&self, indices: &Vec<u64>) -> bool
        requires
            self.inv(),
            forall|i: int| 0 <= i < indices@.len() ==> indices@[i] < self.capacity(),
    ;

    /// Removes all elements from the filter.
    fn clear(&mut self)
        requires
            old(self).inv(),
        ensures
            final(self).inv(),
    ;
}

/// Access to the hash count of a filter.
pub trait Hashes {
    /// Returns the number of hash functions of the filter.
    fn hashes(&self) -> u32;
}

/// A filter that can also remove elements.
pub trait Deletable: Membership {
    /// Removes one insertion of the element from the filter.
    fn remove(&mut self, element: &[u8])
        requires
            old(self).inv(),
        ensures
            final(self).inv(),
    ;
}

impl Membership for BloomFilter {
    open spec fn inv(&self) -> bool {
        self.wf()
    }

    open spec fn capacity(&self) -> u64 {
        self.config.size
    }

    fn add(&mut self, element: &[u8]) {
        BloomFilter::add(self, element)
    }

    fn contains(&self, element: &[u8]) -> bool {
        BloomFilter::contains(self, element)
    }

    fn get_hash_indices(&self, element: &[u8]) -> (r: Vec<u64>) {
        BloomFilter::get_hash_indices(self, element)
    }

    fn contains_hash_indices(&self, indices: &Vec<u64>) -> bool {
        BloomFilter::contains_hash_indices(self, indices)
    }

    fn clear(&mut self) {
        BloomFilter::clear(self)
    }
}

impl Hashes for BloomFilter {
    fn hashes(&self) -> u32 {
        BloomFilter::hashes(self)
    }
}

impl Membership for CountingBloomFilter {
    open spec fn inv(&self) -> bool {
        self.wf()
    }

    open spec fn capacity(&self) -> u64 {
        self.config.size
    }

    fn add(&mut self, element: &[u8]) {
        CountingBloomFilter::add(self, element)
    }

    fn contains(&self, element: &[u8]) -> bool {
        CountingBloomFilter::contains(self, element)
    }

    fn get_hash_indices(&self, element: &[u8]) -> (r: Vec<u64>) {
        CountingBloomFilter::get_hash_indices(self, element)
    }

    fn contains_hash_indices(&self, indices: &Vec<u64>) -> bool {
        CountingBloomFilter::contains_hash_indices(self, indices)
    }

    fn clear(&mut self) {
        CountingBloomFilter::clear(self)
    }
}

impl Hashes for CountingBloomFilter {
    fn hashes(&self) -> u32 {
        CountingBloomFilter::hashes(self)
    }
}

impl Deletable for CountingBloomFilter {
    fn remove(&mut self, element: &[u8]) {
        CountingBloomFilter::remove(self, element)
    }
}

} // verus!

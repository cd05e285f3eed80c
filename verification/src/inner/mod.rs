//! The three encodings of a block of 65536 values.

use vstd::prelude::*;

pub mod seq16;
pub mod seq64;
pub mod rle16;

verus! {

/// Number of values that one block covers.
pub const CAPACITY: usize = 65536;

/// [`CAPACITY`] as a `u32`.
pub const CAP32: u32 = 65536;

/// Number of 64-bit words of a dense block.
pub const UNIT: usize = 1024;

/// Bytes taken by the cached weight of a block.
pub const WEIGHT_BYTES: usize = 4;

/// Bytes taken by one run of a run-length encoded block.
pub const RUN_BYTES: usize = 4;

/// A vector of items with the cached number of values that it stands for.
pub struct Sequence<T> {
    pub(crate) weight: u32,
    pub(crate) vector: Vec<T>,
}

/// A vector of inclusive ranges, each written as its first and its last
/// value, with the cached number of values that they cover.
pub struct Rle<T> {
    pub(crate) weight: u32,
    pub(crate) ranges: Vec<(T, T)>,
}

/// The sparse encoding: the values themselves, in increasing order.
pub type Seq16 = Sequence<u16>;

/// The dense encoding: one bit per value, in 1024 words of 64 bits.
pub type Seq64 = Sequence<u64>;

/// The run-length encoding: the maximal ranges of consecutive values.
pub type Rle16 = Rle<u16>;

/// `Vec::shrink_to_fit`: gives back capacity that the vector does not use.
/// The contract claims that the elements stay as they are.
#[verifier::external_body]
pub(crate) fn shrink_vec<T>(v: &mut Vec<T>)
    ensures
        final(v)@ == old(v)@,
{
    v.shrink_to_fit()
}

impl<T> Sequence<T> {
    /// The stored items.
    pub closed spec fn items(&self) -> Seq<T> {
        self.vector@
    }

    /// The cached weight.
    pub closed spec fn cached(&self) -> u32 {
        self.weight
    }

    /// Number of stored items.
    pub fn len(&self) -> (r: usize)
        ensures
            r == self.items().len(),
    {
        self.vector.len()
    }

    /// The block holds no value: its weight is zero.
    pub fn is_empty(&self) -> (r: bool)
        ensures
            r == (self.cached() == 0),
    {
        self.weight == 0
    }

    /// Number of values in the block, read from the cache.
    pub fn count_ones(&self) -> (r: u32)
        ensures
            r == self.cached(),
    {
        self.weight
    }

    /// Number of values that the block lacks, from the cache.
    pub fn count_zeros(&self) -> (r: u32)
        requires
            self.cached() <= CAP32,
        ensures
            r == CAP32 - self.cached(),
    {
        CAP32 - self.count_ones()
    }

    /// Gives back memory that the items do not need.
    pub fn shrink_to_fit(&mut self)
        ensures
            final(self).items() == old(self).items(),
            final(self).cached() == old(self).cached(),
    {
        shrink_vec(&mut self.vector)
    }
}

impl<T> Rle<T> {
    /// The stored ranges.
    pub closed spec fn items(&self) -> Seq<(T, T)> {
        self.ranges@
    }

    /// The cached weight.
    pub closed spec fn cached(&self) -> u32 {
        self.weight
    }

    /// Number of stored ranges.
    pub fn len(&self) -> (r: usize)
        ensures
            r == self.items().len(),
    {
        self.ranges.len()
    }

    /// The block holds no value: its weight is zero.
    pub fn is_empty(&self) -> (r: bool)
        ensures
            r == (self.cached() == 0),
    {
        self.weight == 0
    }

    /// Number of values in the block, read from the cache.
    pub fn count_ones(&self) -> (r: u32)
        ensures
            r == self.cached(),
    {
        self.weight
    }

    /// Number of values that the block lacks, from the cache.
    pub fn count_zeros(&self) -> (r: u32)
        requires
            self.cached() <= CAP32,
        ensures
            r == CAP32 - self.cached(),
    {
        CAP32 - self.count_ones()
    }

    /// Gives back memory that the ranges do not need.
    pub fn shrink_to_fit(&mut self)
        ensures
            final(self).items() == old(self).items(),
            final(self).cached() == old(self).cached(),
    {
        shrink_vec(&mut self.ranges)
    }
}

} // verus!

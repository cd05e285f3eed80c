//! A block: the subset of the 65536 values of one 16-bit domain, held in
//! whichever of the three encodings takes the least memory.

use vstd::prelude::*;
use crate::counting::{
    count, count_absent, is_select0, is_select1, lemma_count_absent_strict, lemma_count_insert,
    lemma_count_remove, lemma_count_strict, members16, runs, sorted16, within,
};
use crate::inner::{Rle16, Seq16, Seq64, CAP32, RUN_BYTES, UNIT, WEIGHT_BYTES};
use crate::ops::{merge, Op};

verus! {

/// Bytes that a change of encoding must save before it is made, so that a
/// block near a boundary does not change its encoding with every insert
/// and remove.
pub const HYSTERESIS: usize = 64;

/// The three encodings of a block.
#[derive(Clone, Copy, PartialEq, Eq, Debug, Structural)]
pub enum Encoding {
    /// The values themselves, sorted.
    Seq16,
    /// One bit per value.
    Seq64,
    /// The maximal runs of consecutive values.
    Rle16,
}

/// Bytes that a block of `weight` values in `runs` runs takes in the encoding `e`.
pub open spec fn footprint(e: Encoding, weight: nat, runs: nat) -> int {
    match e {
        Encoding::Seq16 => weight * 2 + WEIGHT_BYTES,
        Encoding::Seq64 => UNIT * 8 + WEIGHT_BYTES,
        Encoding::Rle16 => runs * RUN_BYTES + WEIGHT_BYTES,
    }
}

/// The encoding that takes the fewest bytes. Where two take the same, the
/// sparse one goes before the run-length one, and that one before the dense one.
pub open spec fn cheapest(weight: nat, runs: nat) -> Encoding {
    let a = footprint(Encoding::Seq16, weight, runs);
    let b = footprint(Encoding::Rle16, weight, runs);
    let c = footprint(Encoding::Seq64, weight, runs);
    if a <= b && a <= c {
        Encoding::Seq16
    } else if b <= c {
        Encoding::Rle16
    } else {
        Encoding::Seq64
    }
}

/// The encoding that a block in the encoding `current` should have: the
/// cheapest one where that saves more than [`HYSTERESIS`] bytes, and
/// `current` where it does not.
pub open spec fn preferred(current: Encoding, weight: nat, runs: nat) -> Encoding {
    let best = cheapest(weight, runs);
    if footprint(best, weight, runs) + HYSTERESIS < footprint(current, weight, runs) {
        best
    } else {
        current
    }
}

/// Bytes that a block of `weight` values in `runs` runs takes in the encoding `e`.
pub fn footprint_of(e: Encoding, weight: u32, runs: u32) -> (r: usize)
    requires
        weight <= CAP32,
        runs <= CAP32,
    ensures
        r == footprint(e, weight as nat, runs as nat),
{
    match e {
        Encoding::Seq16 => Seq16::size_in_bytes(weight as usize),
        Encoding::Seq64 => Seq64::size_in_bytes(UNIT),
        Encoding::Rle16 => Rle16::size_in_bytes(runs as usize),
    }
}

/// The encoding that a block in the encoding `current` should have.
pub fn choose_encoding(current: Encoding, weight: u32, runs: u32) -> (r: Encoding)
    requires
        weight <= CAP32,
        runs <= CAP32,
    ensures
        r == preferred(current, weight as nat, runs as nat),
{
    let a = footprint_of(Encoding::Seq16, weight, runs);
    let b = footprint_of(Encoding::Rle16, weight, runs);
    let c = footprint_of(Encoding::Seq64, weight, runs);
    let (best, cost) = if a <= b && a <= c {
        (Encoding::Seq16, a)
    } else if b <= c {
        (Encoding::Rle16, b)
    } else {
        (Encoding::Seq64, c)
    };
    if cost + HYSTERESIS < footprint_of(current, weight, runs) {
        best
    } else {
        current
    }
}

/// A value that lies outside the 65536 values of a block.
#[derive(Clone, Copy, PartialEq, Eq, Debug, Structural)]
pub enum DomainError {
    /// The value is 65536 or more.
    OutOfDomain,
}

/// A subset of the values `0..65536`.
pub enum Block {
    /// Held as a sorted vector of values.
    Seq16(Seq16),
    /// Held as 1024 words of 64 bits.
    Seq64(Seq64),
    /// Held as a sorted vector of runs.
    Rle16(Rle16),
}

impl View for Block {
    type V = Set<int>;

    /// The values in the block.
    open spec fn view(&self) -> Set<int> {
        match *self {
            Block::Seq16(s) => s@,
            Block::Seq64(s) => s@,
            Block::Rle16(s) => s@,
        }
    }
}

impl Block {
    /// The encoding is well formed.
    pub open spec fn wf(&self) -> bool {
        match *self {
            Block::Seq16(s) => s.wf(),
            Block::Seq64(s) => s.wf(),
            Block::Rle16(s) => s.wf(),
        }
    }

    /// The encoding that the block is held in.
    pub open spec fn encoding(&self) -> Encoding {
        match *self {
            Block::Seq16(_) => Encoding::Seq16,
            Block::Seq64(_) => Encoding::Seq64,
            Block::Rle16(_) => Encoding::Rle16,
        }
    }

    /// The cached weight.
    pub open spec fn cached(&self) -> u32 {
        match *self {
            Block::Seq16(s) => s.cached(),
            Block::Seq64(s) => s.cached(),
            Block::Rle16(s) => s.cached(),
        }
    }

    /// The block is in the encoding that [`preferred`] names for it: to
    /// optimize it would change nothing.
    pub open spec fn settled(&self) -> bool {
        self.encoding() == preferred(self.encoding(), count(self@, 65536), runs(self@, 65536))
    }

    /// What a well-formed block holds: values below 65536, as many as the
    /// cached weight says.
    pub proof fn lemma_wf(&self)
        requires
            self.wf(),
        ensures
            within(self@, 65536),
            count(self@, 65536) == self.cached(),
            self.cached() <= CAP32,
    {
        match *self {
            Block::Seq16(s) => s.lemma_wf(),
            Block::Seq64(s) => s.lemma_wf(),
            Block::Rle16(s) => s.lemma_wf(),
        }
    }

    /// An empty block.
    pub fn new() -> (r: Self)
        ensures
            r.wf(),
            r@ == Set::<int>::empty(),
            r.encoding() == Encoding::Seq16,
    {
        Block::Seq16(Seq16::new())
    }

    /// The encoding that the block is held in.
    pub fn kind(&self) -> (r: Encoding)
        ensures
            r == self.encoding(),
    {
        match self {
            Block::Seq16(_) => Encoding::Seq16,
            Block::Seq64(_) => Encoding::Seq64,
            Block::Rle16(_) => Encoding::Rle16,
        }
    }

    /// Number of values in the block, read from the cache.
    pub fn count_ones(&self) -> (r: u32)
        requires
            self.wf(),
        ensures
            r == count(self@, 65536),
            r <= CAP32,
    {
        proof {
            self.lemma_wf();
        }
        match self {
            Block::Seq16(s) => s.count_ones(),
            Block::Seq64(s) => s.count_ones(),
            Block::Rle16(s) => s.count_ones(),
        }
    }

    /// Number of values that the block lacks, from the cache.
    pub fn count_zeros(&self) -> (r: u32)
        requires
            self.wf(),
        ensures
            r == count_absent(self@, 65536),
    {
        CAP32 - self.count_ones()
    }

    /// Whether the block holds no value.
    pub fn is_empty(&self) -> (r: bool)
        requires
            self.wf(),
        ensures
            r == (count(self@, 65536) == 0),
    {
        self.count_ones() == 0
    }

    /// Whether `value` is in the block.
    pub fn contains(&self, value: u16) -> (r: bool)
        requires
            self.wf(),
        ensures
            r == self@.contains(value as int),
    {
        match self {
            Block::Seq16(s) => s.contains(value),
            Block::Seq64(s) => s.contains(value),
            Block::Rle16(s) => s.contains(value),
        }
    }

    /// Number of values in the block that are smaller than `i`.
    pub fn rank1(&self, i: u16) -> (r: u32)
        requires
            self.wf(),
        ensures
            r == count(self@, i as int),
    {
        match self {
            Block::Seq16(s) => s.rank1(i),
            Block::Seq64(s) => s.rank1(i),
            Block::Rle16(s) => s.rank1(i),
        }
    }

    /// Number of values below `i` that the block lacks.
    pub fn rank0(&self, i: u16) -> (r: u32)
        requires
            self.wf(),
        ensures
            r == count_absent(self@, i as int),
    {
        match self {
            Block::Seq16(s) => s.rank0(i),
            Block::Seq64(s) => s.rank0(i),
            Block::Rle16(s) => s.rank0(i),
        }
    }

    /// The value of the block that has exactly `c` values of the block
    /// below it, or nothing where the block has no more than `c` values.
    pub fn select1(&self, c: u16) -> (r: Option<u16>)
        requires
            self.wf(),
        ensures
            r is Some <==> c < count(self@, 65536),
            match r {
                Some(p) => is_select1(self@, c as int, p as int),
                None => c >= count(self@, 65536),
            },
    {
        let r = match self {
            Block::Seq16(s) => s.select1(c),
            Block::Seq64(s) => s.select1(c),
            Block::Rle16(s) => s.select1(c),
        };
        proof {
            if let Some(p) = r {
                lemma_count_strict(self@, p as int, 65536);
            }
        }
        r
    }

    /// The value missing from the block that has exactly `c` missing values
    /// below it, or nothing where the block lacks no more than `c` values.
    pub fn select0(&self, c: u16) -> (r: Option<u16>)
        requires
            self.wf(),
        ensures
            r is Some <==> c < count_absent(self@, 65536),
            match r {
                Some(p) => is_select0(self@, c as int, p as int),
                None => c >= count_absent(self@, 65536),
            },
    {
        let r = match self {
            Block::Seq16(s) => s.select0(c),
            Block::Seq64(s) => s.select0(c),
            Block::Rle16(s) => s.select0(c),
        };
        proof {
            if let Some(p) = r {
                lemma_count_absent_strict(self@, p as int, 65536);
            }
        }
        r
    }

    /// Puts `value` into the block, in the encoding that the block has.
    /// Returns whether the value was missing before.
    pub fn insert(&mut self, value: u16) -> (r: bool)
        requires
            old(self).wf(),
        ensures
            final(self).wf(),
            final(self)@ == old(self)@.insert(value as int),
            final(self).encoding() == old(self).encoding(),
            r == !old(self)@.contains(value as int),
            count(final(self)@, 65536) == count(old(self)@, 65536) + if r { 1nat } else { 0nat },
            !r ==> final(self)@ == old(self)@,
    {
        proof {
            lemma_count_insert(self@, value as int, 65536);
            if self@.contains(value as int) {
                assert(self@.insert(value as int) =~= self@);
            }
        }
        match self {
            Block::Seq16(s) => s.insert(value),
            Block::Seq64(s) => s.insert(value),
            Block::Rle16(s) => s.insert(value),
        }
    }

    /// Takes `value` out of the block, in the encoding that the block has.
    /// Returns whether the value was there before.
    pub fn remove(&mut self, value: u16) -> (r: bool)
        requires
            old(self).wf(),
        ensures
            final(self).wf(),
            final(self)@ == old(self)@.remove(value as int),
            final(self).encoding() == old(self).encoding(),
            r == old(self)@.contains(value as int),
            count(final(self)@, 65536) == count(old(self)@, 65536) - if r { 1nat } else { 0nat },
            !r ==> final(self)@ == old(self)@,
    {
        proof {
            lemma_count_remove(self@, value as int, 65536);
            if !self@.contains(value as int) {
                assert(self@.remove(value as int) =~= self@);
            }
        }
        match self {
            Block::Seq16(s) => s.remove(value),
            Block::Seq64(s) => s.remove(value),
            Block::Rle16(s) => s.remove(value),
        }
    }

    /// The values of the block, in increasing order.
    pub fn values(&self) -> (r: Vec<u16>)
        requires
            self.wf(),
        ensures
            sorted16(r@),
            members16(r@) == self@,
    {
        match self {
            Block::Seq16(s) => s.values(),
            Block::Seq64(s) => s.values(),
            Block::Rle16(s) => s.values(),
        }
    }

    /// Number of maximal runs of consecutive values in the block.
    pub fn count_runs(&self) -> (r: u32)
        requires
            self.wf(),
        ensures
            r == runs(self@, 65536),
            r <= CAP32,
    {
        proof {
            crate::counting::lemma_count_bounds(crate::counting::run_starts(self@), 65536);
        }
        match self {
            Block::Seq16(s) => s.count_runs(),
            Block::Seq64(s) => s.count_runs(),
            Block::Rle16(s) => s.count_runs(),
        }
    }

    /// Bytes that the block takes in its encoding.
    pub fn mem_size(&self) -> (r: usize)
        requires
            self.wf(),
        ensures
            r == footprint(self.encoding(), count(self@, 65536), runs(self@, 65536)),
    {
        proof {
            self.lemma_wf();
        }
        match self {
            Block::Seq16(s) => s.mem_size(),
            Block::Seq64(s) => s.mem_size(),
            Block::Rle16(s) => {
                proof {
                    s.lemma_runs();
                }
                s.mem_size()
            },
        }
    }

    /// The same values in the encoding `e`.
    pub fn to_encoding(&self, e: Encoding) -> (r: Self)
        requires
            self.wf(),
        ensures
            r.wf(),
            r@ == self@,
            r.encoding() == e,
    {
        match e {
            Encoding::Seq16 => match self {
                Block::Seq16(s) => Block::Seq16(s.clone()),
                _ => Block::Seq16(Seq16::from_sorted(self.values())),
            },
            Encoding::Seq64 => match self {
                Block::Seq64(s) => Block::Seq64(s.clone()),
                _ => Block::Seq64(Seq64::from_values(&self.values())),
            },
            Encoding::Rle16 => match self {
                Block::Rle16(s) => Block::Rle16(s.clone()),
                _ => Block::Rle16(Rle16::from_values(&self.values())),
            },
        }
    }

    /// The block that holds the given values, which may come in any order
    /// and more than once, in the encoding that takes the least memory.
    pub fn from_values(values: &Vec<u16>) -> (r: Self)
        ensures
            r.wf(),
            r@ == members16(values@),
            r.settled(),
    {
        let mut r = Block::Seq16(Seq16::from_values(values));
        r.optimize();
        r
    }

    /// Puts the block into the encoding that [`preferred`] names for its
    /// weight and its number of runs. The values stay as they are.
    pub fn optimize(&mut self)
        requires
            old(self).wf(),
        ensures
            final(self).wf(),
            final(self)@ == old(self)@,
            final(self).encoding() == preferred(
                old(self).encoding(),
                count(old(self)@, 65536),
                runs(old(self)@, 65536),
            ),
            final(self).settled(),
    {
        let current = self.kind();
        let target = choose_encoding(current, self.count_ones(), self.count_runs());
        if target != current {
            let converted = self.to_encoding(target);
            *self = converted;
        }
    }

    /// The block that `op` makes of this block and `that`, in the encoding
    /// that takes the least memory. Two dense blocks are combined word by
    /// word; where one block is dense, the other one is made dense first;
    /// all others are combined in one pass over the values of both.
    pub fn combine(&self, that: &Block, op: Op) -> (r: Self)
        requires
            self.wf(),
            that.wf(),
        ensures
            r.wf(),
            r@ == op.apply(self@, that@),
            r.settled(),
    {
        let mut r = match (self, that) {
            (Block::Seq64(a), Block::Seq64(b)) => Block::Seq64(a.combine(b, op)),
            (Block::Seq64(a), _) => {
                let b = Seq64::from_values(&that.values());
                Block::Seq64(a.combine(&b, op))
            },
            (_, Block::Seq64(b)) => {
                let a = Seq64::from_values(&self.values());
                Block::Seq64(a.combine(b, op))
            },
            (Block::Seq16(a), Block::Seq16(b)) => Block::Seq16(a.combine(b, op)),
            _ => {
                let a = self.values();
                let b = that.values();
                Block::Seq16(Seq16::from_sorted(merge(&a, &b, op)))
            },
        };
        r.optimize();
        r
    }

    /// Keeps the values that `that` holds too.
    pub fn intersection_with(&mut self, that: &Block)
        requires
            old(self).wf(),
            that.wf(),
        ensures
            final(self).wf(),
            final(self)@ == old(self)@.intersect(that@),
            final(self).settled(),
    {
        let r = self.combine(that, Op::And);
        *self = r;
    }

    /// Adds the values that `that` holds.
    pub fn union_with(&mut self, that: &Block)
        requires
            old(self).wf(),
            that.wf(),
        ensures
            final(self).wf(),
            final(self)@ == old(self)@.union(that@),
            final(self).settled(),
    {
        let r = self.combine(that, Op::Or);
        *self = r;
    }

    /// Drops the values that `that` holds.
    pub fn difference_with(&mut self, that: &Block)
        requires
            old(self).wf(),
            that.wf(),
        ensures
            final(self).wf(),
            final(self)@ == old(self)@.difference(that@),
            final(self).settled(),
    {
        let r = self.combine(that, Op::AndNot);
        *self = r;
    }

    /// Keeps the values that exactly one of the two blocks holds.
    pub fn symmetric_difference_with(&mut self, that: &Block)
        requires
            old(self).wf(),
            that.wf(),
        ensures
            final(self).wf(),
            final(self)@ == Op::Xor.apply(old(self)@, that@),
            final(self).settled(),
    {
        let r = self.combine(that, Op::Xor);
        *self = r;
    }

    /// Puts `value` into the block, if it is a value of the domain.
    pub fn try_insert(&mut self, value: u32) -> (r: Result<bool, DomainError>)
        requires
            old(self).wf(),
        ensures
            final(self).wf(),
            r is Err <==> value >= CAP32,
            r is Err ==> *final(self) == *old(self),
            r matches Ok(added) ==> final(self)@ == old(self)@.insert(value as int) && added == !old(self)@.contains(
                value as int,
            ) && final(self).encoding() == old(self).encoding(),
    {
        if value >= CAP32 {
            return Err(DomainError::OutOfDomain);
        }
        Ok(self.insert(value as u16))
    }

    /// Takes `value` out of the block, if it is a value of the domain.
    pub fn try_remove(&mut self, value: u32) -> (r: Result<bool, DomainError>)
        requires
            old(self).wf(),
        ensures
            final(self).wf(),
            r is Err <==> value >= CAP32,
            r is Err ==> *final(self) == *old(self),
            r matches Ok(removed) ==> final(self)@ == old(self)@.remove(value as int) && removed == old(
                self,
            )@.contains(value as int) && final(self).encoding() == old(self).encoding(),
    {
        if value >= CAP32 {
            return Err(DomainError::OutOfDomain);
        }
        Ok(self.remove(value as u16))
    }

    /// Whether `value` is in the block, if it is a value of the domain.
    pub fn try_contains(&self, value: u32) -> (r: Result<bool, DomainError>)
        requires
            self.wf(),
        ensures
            r is Err <==> value >= CAP32,
            r matches Ok(held) ==> held == self@.contains(value as int),
    {
        if value >= CAP32 {
            return Err(DomainError::OutOfDomain);
        }
        Ok(self.contains(value as u16))
    }

    /// Number of values below `i`, if `i` is a value of the domain.
    pub fn try_rank1(&self, i: u32) -> (r: Result<u32, DomainError>)
        requires
            self.wf(),
        ensures
            r is Err <==> i >= CAP32,
            r matches Ok(n) ==> n == count(self@, i as int),
    {
        if i >= CAP32 {
            return Err(DomainError::OutOfDomain);
        }
        Ok(self.rank1(i as u16))
    }

    /// Number of missing values below `i`, if `i` is a value of the domain.
    pub fn try_rank0(&self, i: u32) -> (r: Result<u32, DomainError>)
        requires
            self.wf(),
        ensures
            r is Err <==> i >= CAP32,
            r matches Ok(n) ==> n == count_absent(self@, i as int),
    {
        if i >= CAP32 {
            return Err(DomainError::OutOfDomain);
        }
        Ok(self.rank0(i as u16))
    }
}

impl Clone for Block {
    /// A copy with the same values in the same encoding.
    fn clone(&self) -> (r: Self)
        ensures
            r@ == self@,
            r.wf() == self.wf(),
            r.encoding() == self.encoding(),
            r.cached() == self.cached(),
    {
        match self {
            Block::Seq16(s) => Block::Seq16(s.clone()),
            Block::Seq64(s) => Block::Seq64(s.clone()),
            Block::Rle16(s) => Block::Rle16(s.clone()),
        }
    }
}

} // verus!

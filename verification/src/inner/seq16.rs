//! The sparse encoding: a sorted vector of the values in the block.

use vstd::prelude::*;
use crate::counting::{
    count, count_absent, is_select0, is_select1, lemma_count_bounds, lemma_count_insert,
    lemma_count_members16, lemma_members16_insert, lemma_members16_remove,
    lemma_members16_take, lemma_run_starts16, lemma_run_starts16_end, lemma_sorted16, members16,
    runs, sorted16, within,
};
use crate::inner::{Seq16, Sequence, CAP32, WEIGHT_BYTES};
use crate::ops::{merge, Op};

verus! {

impl View for Seq16 {
    type V = Set<int>;

    /// The values in the block.
    open spec fn view(&self) -> Set<int> {
        members16(self.items())
    }
}

/// Number of elements of the sorted vector `v` that are smaller than `x`,
/// found by bisection.
pub fn lower_bound(v: &Vec<u16>, x: u16) -> (k: usize)
    requires
        sorted16(v@),
    ensures
        k <= v.len(),
        forall|j: int| 0 <= j < k ==> v[j] < x,
        forall|j: int| k <= j < v.len() ==> x <= v[j],
{
    let mut lo: usize = 0;
    let mut hi: usize = v.len();
    while lo < hi
        invariant
            sorted16(v@),
            lo <= hi <= v.len(),
            forall|j: int| 0 <= j < lo ==> v[j] < x,
            forall|j: int| hi <= j < v.len() ==> x <= v[j],
        decreases hi - lo,
    {
        let mid: usize = lo + (hi - lo) / 2;
        if v[mid] < x {
            lo = mid + 1;
        } else {
            hi = mid;
        }
    }
    lo
}

impl Seq16 {
    /// The items increase strictly, and the cached weight is their number.
    pub open spec fn wf(&self) -> bool {
        &&& sorted16(self.items())
        &&& self.cached() == self.items().len()
    }

    /// What a well-formed sparse block holds: values below 65536, as many
    /// as the cached weight says.
    pub proof fn lemma_wf(&self)
        requires
            self.wf(),
        ensures
            within(self@, 65536),
            count(self@, 65536) == self.cached(),
            self.cached() <= CAP32,
    {
        lemma_sorted16(self.items());
    }

    /// An empty block.
    pub fn new() -> (r: Self)
        ensures
            r.wf(),
            r@ == Set::<int>::empty(),
    {
        let r = Sequence { weight: 0, vector: Vec::new() };
        assert(r@ =~= Set::<int>::empty());
        r
    }

    /// Bytes taken by a sparse block of `weight` values.
    pub fn size_in_bytes(weight: usize) -> (r: usize)
        requires
            weight * 2 + WEIGHT_BYTES <= usize::MAX,
        ensures
            r == weight * 2 + WEIGHT_BYTES,
    {
        weight * 2 + WEIGHT_BYTES
    }

    /// Bytes taken by this block.
    pub fn mem_size(&self) -> (r: usize)
        requires
            self.cached() <= CAP32,
        ensures
            r == self.cached() * 2 + WEIGHT_BYTES,
    {
        Self::size_in_bytes(self.weight as usize)
    }

    /// Whether `value` is in the block.
    pub fn contains(&self, value: u16) -> (r: bool)
        requires
            self.wf(),
        ensures
            r == self@.contains(value as int),
    {
        let k = lower_bound(&self.vector, value);
        let r = k < self.vector.len() && self.vector[k] == value;
        proof {
            if self@.contains(value as int) {
                let i = choose|i: int| 0 <= i < self.items().len() && self.items()[i] as int == value as int;
                assert(i == k);
            }
        }
        r
    }

    /// Number of values in the block that are smaller than `i`.
    pub fn rank1(&self, i: u16) -> (r: u32)
        requires
            self.wf(),
        ensures
            r == count(self@, i as int),
    {
        let k = lower_bound(&self.vector, i);
        proof {
            lemma_count_members16(self.items(), k as int, i as int);
            lemma_count_bounds(self@, i as int);
        }
        k as u32
    }

    /// Number of values below `i` that the block lacks.
    pub fn rank0(&self, i: u16) -> (r: u32)
        requires
            self.wf(),
        ensures
            r == count_absent(self@, i as int),
    {
        proof {
            lemma_count_bounds(self@, i as int);
        }
        i as u32 - self.rank1(i)
    }

    /// The value of the block that has exactly `c` values of the block
    /// below it, or nothing where the block has no more than `c` values.
    pub fn select1(&self, c: u16) -> (r: Option<u16>)
        requires
            self.wf(),
        ensures
            match r {
                Some(p) => is_select1(self@, c as int, p as int),
                None => c >= count(self@, 65536),
            },
    {
        proof {
            self.lemma_wf();
        }
        if (c as usize) < self.vector.len() {
            let p = self.vector[c as usize];
            proof {
                lemma_count_members16(self.items(), c as int, p as int);
            }
            Some(p)
        } else {
            None
        }
    }

    /// The value missing from the block that has exactly `c` missing values
    /// below it, or nothing where the block lacks no more than `c` values.
    pub fn select0(&self, c: u16) -> (r: Option<u16>)
        requires
            self.wf(),
        ensures
            match r {
                Some(p) => is_select0(self@, c as int, p as int),
                None => c >= count_absent(self@, 65536),
            },
    {
        proof {
            self.lemma_wf();
        }
        // The number of missing values below the item at `j` is the item
        // less `j`, which does not decrease with `j`.
        let mut lo: usize = 0;
        let mut hi: usize = self.vector.len();
        while lo < hi
            invariant
                self.wf(),
                lo <= hi <= self.vector.len(),
                self.vector.len() <= 65536,
                forall|j: int| 0 <= j < lo ==> self.vector[j] - j <= c,
                forall|j: int| hi <= j < self.vector.len() ==> self.vector[j] - j > c,
            decreases hi - lo,
        {
            let mid: usize = lo + (hi - lo) / 2;
            proof {
                assert forall|j: int| 0 <= j < mid implies self.vector[j] - j <= self.vector[mid as int] - mid by {
                    self.lemma_gap_mono(j, mid as int);
                }
                assert forall|j: int| mid < j < self.vector.len() implies self.vector[j] - j >= self.vector[mid as int]
                    - mid by {
                    self.lemma_gap_mono(mid as int, j);
                }
                self.lemma_gap_mono(0, mid as int);
            }
            if self.vector[mid] as usize - mid <= c as usize {
                lo = mid + 1;
            } else {
                hi = mid;
            }
        }
        let p: usize = c as usize + lo;
        if p < 65536 {
            proof {
                lemma_count_members16(self.items(), lo as int, p as int);
                if self@.contains(p as int) {
                    let i = choose|i: int| 0 <= i < self.items().len() && self.items()[i] as int == p as int;
                    if i < lo {
                        assert(self.vector[i] - i <= c);
                    } else {
                        assert(self.vector[i] - i > c);
                    }
                }
            }
            Some(p as u16)
        } else {
            proof {
                if lo < self.vector.len() {
                    assert(self.vector[lo as int] - lo > c);
                }
            }
            None
        }
    }

    /// The number of missing values below an item, which is the item less
    /// its index, does not decrease from one item to the next.
    proof fn lemma_gap_mono(&self, i: int, j: int)
        requires
            self.wf(),
            0 <= i <= j < self.items().len(),
        ensures
            0 <= self.items()[i] - i <= self.items()[j] - j,
        decreases j,
    {
        if i < j {
            self.lemma_gap_mono(i, j - 1);
            assert(self.items()[j - 1] < self.items()[j]);
        } else if i > 0 {
            self.lemma_gap_mono(i - 1, i - 1);
            assert(self.items()[i - 1] < self.items()[i]);
        }
    }

    /// Puts `value` into the block. Returns whether it was missing before.
    pub fn insert(&mut self, value: u16) -> (r: bool)
        requires
            old(self).wf(),
        ensures
            final(self).wf(),
            final(self)@ == old(self)@.insert(value as int),
            r == !old(self)@.contains(value as int),
    {
        let k = lower_bound(&self.vector, value);
        if k < self.vector.len() && self.vector[k] == value {
            proof {
                assert(self@.contains(value as int));
                assert(self@.insert(value as int) =~= self@);
            }
            return false;
        }
        proof {
            self.lemma_wf();
            if self@.contains(value as int) {
                let i = choose|i: int| 0 <= i < self.items().len() && self.items()[i] as int == value as int;
                assert(i == k);
            }
            lemma_members16_insert(self.items(), k as int, value);
            lemma_count_insert(self@, value as int, 65536);
            let w = self.items().insert(k as int, value);
            assert(sorted16(w)) by {
                assert forall|i: int, j: int| 0 <= i < j < w.len() implies w[i] < w[j] by {
                    if j < k {
                        assert(self.items()[i] < self.items()[j]);
                    } else if j == k {
                    } else if i < k {
                        assert(self.items()[i] < value <= self.items()[j - 1]);
                    } else if i == k {
                        assert(value <= self.items()[j - 1]);
                        assert(value != self.items()[k as int]);
                        if j - 1 > k {
                            assert(self.items()[k as int] < self.items()[j - 1]);
                        }
                    } else {
                        assert(self.items()[i - 1] < self.items()[j - 1]);
                    }
                }
            }
            lemma_sorted16(w);
        }
        self.vector.insert(k, value);
        self.weight = self.weight + 1;
        true
    }

    /// Takes `value` out of the block. Returns whether it was there before.
    pub fn remove(&mut self, value: u16) -> (r: bool)
        requires
            old(self).wf(),
        ensures
            final(self).wf(),
            final(self)@ == old(self)@.remove(value as int),
            r == old(self)@.contains(value as int),
    {
        let k = lower_bound(&self.vector, value);
        if k < self.vector.len() && self.vector[k] == value {
            proof {
                self.lemma_wf();
                lemma_members16_remove(self.items(), k as int);
                let w = self.items().remove(k as int);
                assert(sorted16(w)) by {
                    assert forall|i: int, j: int| 0 <= i < j < w.len() implies w[i] < w[j] by {
                        let a = if i < k { i } else { i + 1 };
                        let b = if j < k { j } else { j + 1 };
                        assert(self.items()[a] < self.items()[b]);
                    }
                }
            }
            self.vector.remove(k);
            self.weight = self.weight - 1;
            true
        } else {
            proof {
                if self@.contains(value as int) {
                    let i = choose|i: int| 0 <= i < self.items().len() && self.items()[i] as int == value as int;
                    assert(i == k);
                }
                assert(self@.remove(value as int) =~= self@);
            }
            false
        }
    }

    /// The values of the block, in increasing order.
    pub fn values(&self) -> (r: Vec<u16>)
        requires
            self.wf(),
        ensures
            sorted16(r@),
            members16(r@) == self@,
    {
        let mut out: Vec<u16> = Vec::with_capacity(self.vector.len());
        let mut i: usize = 0;
        while i < self.vector.len()
            invariant
                i <= self.vector.len(),
                out@ == self.items().take(i as int),
            decreases self.vector.len() - i,
        {
            out.push(self.vector[i]);
            proof {
                assert(out@ =~= self.items().take(i + 1));
            }
            i += 1;
        }
        proof {
            assert(out@ =~= self.items());
        }
        out
    }

    /// The block that holds the given values, which may come in any order
    /// and more than once.
    pub fn from_values(values: &Vec<u16>) -> (r: Self)
        ensures
            r.wf(),
            r@ == members16(values@),
    {
        let mut r = Self::new();
        let mut i: usize = 0;
        proof {
            assert(members16(values@.take(0)) =~= Set::<int>::empty());
        }
        while i < values.len()
            invariant
                i <= values.len(),
                r.wf(),
                r@ == members16(values@.take(i as int)),
            decreases values.len() - i,
        {
            proof {
                lemma_members16_take(values@, i as int);
            }
            r.insert(values[i]);
            i += 1;
        }
        proof {
            assert(values@.take(values.len() as int) =~= values@);
        }
        r
    }

    /// Number of maximal runs of consecutive values in the block.
    pub fn count_runs(&self) -> (r: u32)
        requires
            self.wf(),
        ensures
            r == runs(self@, 65536),
    {
        let mut n: u32 = 0;
        let mut k: usize = 0;
        proof {
            self.lemma_wf();
        }
        while k < self.vector.len()
            invariant
                self.wf(),
                k <= self.vector.len() <= 65536,
                n <= k,
                n == if k == 0 { 0 } else { runs(self@, self.items()[k - 1] + 1) },
            decreases self.vector.len() - k,
        {
            proof {
                lemma_run_starts16(self.items(), k as int);
            }
            if k == 0 || self.vector[k - 1] + 1 < self.vector[k] {
                n = n + 1;
            }
            k += 1;
        }
        proof {
            lemma_run_starts16_end(self.items());
        }
        n
    }

    /// The block that holds the values of a sorted vector.
    pub fn from_sorted(vector: Vec<u16>) -> (r: Self)
        requires
            sorted16(vector@),
        ensures
            r.wf(),
            r@ == members16(vector@),
    {
        proof {
            lemma_sorted16(vector@);
        }
        Sequence { weight: vector.len() as u32, vector }
    }

    /// The block that `op` makes of this block and `that`, in one pass
    /// over the values of both.
    pub fn combine(&self, that: &Seq16, op: Op) -> (r: Self)
        requires
            self.wf(),
            that.wf(),
        ensures
            r.wf(),
            r@ == op.apply(self@, that@),
    {
        Self::from_sorted(merge(&self.vector, &that.vector, op))
    }
}

impl Clone for Seq16 {
    /// A copy with the same values and the same cached weight.
    fn clone(&self) -> (r: Self)
        ensures
            r.items() == self.items(),
            r.cached() == self.cached(),
    {
        let mut vector: Vec<u16> = Vec::with_capacity(self.vector.len());
        let mut i: usize = 0;
        while i < self.vector.len()
            invariant
                i <= self.vector.len(),
                vector@ == self.vector@.take(i as int),
            decreases self.vector.len() - i,
        {
            vector.push(self.vector[i]);
            proof {
                assert(vector@ =~= self.vector@.take(i + 1));
            }
            i += 1;
        }
        proof {
            assert(vector@ =~= self.vector@);
        }
        Sequence { weight: self.weight, vector }
    }
}

} // verus!

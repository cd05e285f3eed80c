//! The dense encoding: one bit for each of the 65536 values.

use vstd::prelude::*;
use crate::counting::{
    count, count_absent, is_select0, is_select1, lemma_count_agree, lemma_count_bounds,
    lemma_count_empty, lemma_count_insert, lemma_count_remove,
    lemma_count_window, lemma_members16_push, lemma_members16_take, members16, run_starts, runs,
    sorted16, within,
};
use crate::inner::{Seq64, Sequence, CAP32, UNIT, WEIGHT_BYTES};
use crate::ops::Op;
use crate::word;
use crate::word::{bit, bits_of, ones_below};

verus! {

/// The values that the words `w` hold: value `v` stands at bit `v % 64` of
/// word `v / 64`.
pub open spec fn word_members(w: Seq<u64>) -> Set<int> {
    Set::new(|v: int| 0 <= v < 64 * w.len() && bit(w[v / 64], v % 64))
}

/// The values of word `i` are the set bits of that word, moved up by `64 * i`.
pub proof fn lemma_word_window(w: Seq<u64>, i: int, k: int)
    requires
        0 <= i < w.len(),
        0 <= k <= 64,
    ensures
        count(word_members(w), 64 * i + k) - count(word_members(w), 64 * i) == ones_below(w[i], k),
{
    let s = word_members(w);
    let t = bits_of(w[i]);
    assert forall|j: int| 64 * i <= j < 64 * i + k implies (#[trigger] s.contains(j) <==> t.contains(j - 64 * i + 0)) by {
        assert(j / 64 == i);
        assert(j % 64 == j - 64 * i);
    }
    lemma_count_window(s, t, 64 * i, 0, k);
}

/// Two vectors of words that differ in word `i` alone hold the same values
/// outside the 64 values of that word.
pub proof fn lemma_word_update(w: Seq<u64>, i: int, x: u64)
    requires
        0 <= i < w.len(),
    ensures
        forall|v: int| v / 64 != i ==> (word_members(w.update(i, x)).contains(v) <==> word_members(w).contains(v)),
        forall|v: int|
            0 <= v && v / 64 == i ==> (word_members(w.update(i, x)).contains(v) <==> bit(x, v % 64)),
{
}

impl View for Seq64 {
    type V = Set<int>;

    /// The values in the block.
    open spec fn view(&self) -> Set<int> {
        word_members(self.items())
    }
}

impl Seq64 {
    /// There are 1024 words, and the cached weight is the number of their set bits.
    pub open spec fn wf(&self) -> bool {
        &&& self.items().len() == UNIT
        &&& self.cached() == count(self@, 65536)
    }

    /// What a well-formed dense block holds: values below 65536, as many
    /// as the cached weight says.
    pub proof fn lemma_wf(&self)
        requires
            self.wf(),
        ensures
            within(self@, 65536),
            count(self@, 65536) == self.cached(),
            self.cached() <= CAP32,
    {
        lemma_count_bounds(self@, 65536);
    }

    /// An empty block.
    pub fn new() -> (r: Self)
        ensures
            r.wf(),
            r@ == Set::<int>::empty(),
    {
        let mut vector: Vec<u64> = Vec::with_capacity(UNIT);
        let mut i: usize = 0;
        while i < UNIT
            invariant
                i <= UNIT,
                vector.len() == i,
                forall|j: int| 0 <= j < i ==> vector[j] == 0,
            decreases UNIT - i,
        {
            vector.push(0);
            i += 1;
        }
        let r = Sequence { weight: 0, vector };
        proof {
            word::lemma_zero_bits();
            assert forall|v: int| !r@.contains(v) by {
                if 0 <= v < 65536 {
                    assert(r.items()[v / 64] == 0);
                    assert(!bits_of(0).contains(v % 64));
                }
            }
            assert(r@ =~= Set::<int>::empty());
            lemma_count_empty(65536);
        }
        r
    }

    /// Bytes taken by a dense block of `len` words.
    pub fn size_in_bytes(len: usize) -> (r: usize)
        requires
            len * 8 + WEIGHT_BYTES <= usize::MAX,
        ensures
            r == len * 8 + WEIGHT_BYTES,
    {
        len * 8 + WEIGHT_BYTES
    }

    /// Bytes taken by this block: a dense block has a fixed size.
    pub fn mem_size(&self) -> (r: usize)
        ensures
            r == UNIT * 8 + WEIGHT_BYTES,
    {
        Self::size_in_bytes(UNIT)
    }

    /// Whether `value` is in the block.
    pub fn contains(&self, value: u16) -> (r: bool)
        requires
            self.wf(),
        ensures
            r == self@.contains(value as int),
    {
        let i: usize = (value / 64) as usize;
        let b: u64 = (value % 64) as u64;
        proof {
            word::lemma_test_bit(self.vector[i as int], b);
        }
        self.vector[i] & (1u64 << b) != 0
    }

    /// Number of values of the block in the first `n` words.
    fn rank_words(&self, n: usize) -> (r: u32)
        requires
            self.wf(),
            n <= UNIT,
        ensures
            r == count(self@, 64 * n),
    {
        let mut acc: u32 = 0;
        let mut w: usize = 0;
        while w < n
            invariant
                self.wf(),
                w <= n <= UNIT,
                acc == count(self@, 64 * w),
            decreases n - w,
        {
            proof {
                lemma_word_window(self.items(), w as int, 64);
                lemma_count_bounds(self@, 64 * w + 64);
            }
            acc = acc + word::count_ones(self.vector[w]);
            w += 1;
        }
        acc
    }

    /// Number of values in the block that are smaller than `i`.
    pub fn rank1(&self, i: u16) -> (r: u32)
        requires
            self.wf(),
        ensures
            r == count(self@, i as int),
    {
        let n: usize = (i / 64) as usize;
        let k: u64 = (i % 64) as u64;
        let below = self.rank_words(n);
        proof {
            word::lemma_low_mask(self.vector[n as int], k);
            lemma_word_window(self.items(), n as int, k as int);
            lemma_count_bounds(self@, i as int);
        }
        let masked: u64 = self.vector[n] & ((1u64 << k) - 1);
        below + word::count_ones(masked)
    }

    /// Number of values below `i` that the block lacks.
    pub fn rank0(&self, i: u16) -> (r: u32)
        requires
            self.wf(),
        ensures
            r == count_absent(self@, i as int),
    {
        proof {
            lemma_count_bounds(self@, i as int);
        }
        i as u32 - self.rank1(i)
    }

    /// The value of the block that has exactly `c` values of the block
    /// below it, or nothing where the block has no more than `c` values.
    pub fn select1(&self, c: u16) -> (r: Option<u16>)
        requires
            self.wf(),
        ensures
            match r {
                Some(p) => is_select1(self@, c as int, p as int),
                None => c >= count(self@, 65536),
            },
    {
        let mut acc: u32 = 0;
        let mut w: usize = 0;
        while w < UNIT
            invariant
                self.wf(),
                w <= UNIT,
                acc == count(self@, 64 * w),
                acc <= c,
            decreases UNIT - w,
        {
            proof {
                lemma_word_window(self.items(), w as int, 64);
                lemma_count_bounds(self@, 64 * w + 64);
            }
            let x = self.vector[w];
            let n = word::count_ones(x);
            if acc + n > c as u32 {
                let found = word::select1(x, c as u32 - acc);
                match found {
                    Some(p) => {
                        proof {
                            lemma_word_window(self.items(), w as int, p as int);
                            assert((64 * w + p) / 64 == w as int);
                            assert((64 * w + p) % 64 == p as int);
                        }
                        return Some((64 * w + p as usize) as u16);
                    },
                    None => {
                        proof {
                            assert(false);
                        }
                        return None;
                    },
                }
            }
            acc = acc + n;
            w += 1;
        }
        None
    }

    /// The value missing from the block that has exactly `c` missing values
    /// below it, or nothing where the block lacks no more than `c` values.
    pub fn select0(&self, c: u16) -> (r: Option<u16>)
        requires
            self.wf(),
        ensures
            match r {
                Some(p) => is_select0(self@, c as int, p as int),
                None => c >= count_absent(self@, 65536),
            },
    {
        let mut acc: u32 = 0;
        let mut w: usize = 0;
        while w < UNIT
            invariant
                self.wf(),
                w <= UNIT,
                acc == count_absent(self@, 64 * w),
                acc <= c,
            decreases UNIT - w,
        {
            proof {
                lemma_word_window(self.items(), w as int, 64);
                lemma_count_bounds(self@, 64 * w + 64);
                lemma_count_bounds(bits_of(self.vector[w as int]), 64);
            }
            let x = self.vector[w];
            let n = 64 - word::count_ones(x);
            if acc + n > c as u32 {
                let found = word::select0(x, c as u32 - acc);
                match found {
                    Some(p) => {
                        proof {
                            lemma_word_window(self.items(), w as int, p as int);
                            assert((64 * w + p) / 64 == w as int);
                            assert((64 * w + p) % 64 == p as int);
                        }
                        return Some((64 * w + p as usize) as u16);
                    },
                    None => {
                        proof {
                            assert(false);
                        }
                        return None;
                    },
                }
            }
            acc = acc + n;
            w += 1;
        }
        None
    }

    /// Puts `value` into the block. Returns whether it was missing before.
    pub fn insert(&mut self, value: u16) -> (r: bool)
        requires
            old(self).wf(),
        ensures
            final(self).wf(),
            final(self)@ == old(self)@.insert(value as int),
            r == !old(self)@.contains(value as int),
    {
        let i: usize = (value / 64) as usize;
        let b: u64 = (value % 64) as u64;
        let x = self.vector[i];
        let y = x | (1u64 << b);
        proof {
            word::lemma_test_bit(x, b);
            word::lemma_set_bit(x, b);
            lemma_word_update(self.items(), i as int, y);
            let after = word_members(self.items().update(i as int, y));
            assert forall|v: int| after.contains(v) <==> self@.insert(value as int).contains(v) by {
                if 0 <= v < 65536 && v / 64 == i {
                    assert(bits_of(y).contains(v % 64) <==> bits_of(x).insert(b as int).contains(v % 64));
                }
            }
            assert(after =~= self@.insert(value as int));
            lemma_count_insert(self@, value as int, 65536);
            lemma_count_bounds(after, 65536);
        }
        let r = x & (1u64 << b) == 0;
        self.vector[i] = y;
        if r {
            self.weight = self.weight + 1;
        }
        r
    }

    /// Takes `value` out of the block. Returns whether it was there before.
    pub fn remove(&mut self, value: u16) -> (r: bool)
        requires
            old(self).wf(),
        ensures
            final(self).wf(),
            final(self)@ == old(self)@.remove(value as int),
            r == old(self)@.contains(value as int),
    {
        let i: usize = (value / 64) as usize;
        let b: u64 = (value % 64) as u64;
        let x = self.vector[i];
        let y = x & !(1u64 << b);
        proof {
            word::lemma_test_bit(x, b);
            word::lemma_clear_bit(x, b);
            lemma_word_update(self.items(), i as int, y);
            let after = word_members(self.items().update(i as int, y));
            assert forall|v: int| after.contains(v) <==> self@.remove(value as int).contains(v) by {
                if 0 <= v < 65536 && v / 64 == i {
                    assert(bits_of(y).contains(v % 64) <==> bits_of(x).remove(b as int).contains(v % 64));
                }
            }
            assert(after =~= self@.remove(value as int));
            lemma_count_remove(self@, value as int, 65536);
        }
        let r = x & (1u64 << b) != 0;
        self.vector[i] = y;
        if r {
            self.weight = self.weight - 1;
        }
        r
    }

    /// The values of the block, in increasing order.
    pub fn values(&self) -> (r: Vec<u16>)
        requires
            self.wf(),
        ensures
            sorted16(r@),
            members16(r@) == self@,
    {
        let mut out: Vec<u16> = Vec::new();
        let mut w: usize = 0;
        proof {
            assert(members16(out@) =~= Set::<int>::empty());
        }
        while w < UNIT
            invariant
                self.wf(),
                w <= UNIT,
                sorted16(out@),
                forall|i: int| 0 <= i < out.len() ==> out[i] < 64 * w,
                forall|y: int| members16(out@).contains(y) <==> (self@.contains(y) && y < 64 * w),
            decreases UNIT - w,
        {
            let x = self.vector[w];
            if x != 0 {
                let mut b: usize = 0;
                while b < 64
                    invariant
                        self.wf(),
                        w < UNIT,
                        b <= 64,
                        x == self.items()[w as int],
                        sorted16(out@),
                        forall|i: int| 0 <= i < out.len() ==> out[i] < 64 * w + b,
                        forall|y: int| members16(out@).contains(y) <==> (self@.contains(y) && y < 64 * w + b),
                    decreases 64 - b,
                {
                    let v: usize = 64 * w + b;
                    proof {
                        word::lemma_test_bit(x, b as u64);
                        assert(v / 64 == w && v % 64 == b);
                    }
                    if x & (1u64 << (b as u64)) != 0 {
                        proof {
                            lemma_members16_push(out@, v as u16);
                            let grown = out@.push(v as u16);
                            assert(sorted16(grown)) by {
                                assert forall|i: int, j: int| 0 <= i < j < grown.len() implies grown[i] < grown[j] by {
                                    if j < out.len() {
                                        assert(out[i] < out[j]);
                                    }
                                }
                            }
                        }
                        out.push(v as u16);
                    }
                    b += 1;
                }
            } else {
                proof {
                    word::lemma_zero_bits();
                    assert forall|y: int| 64 * w <= y < 64 * w + 64 implies !self@.contains(y) by {
                        assert(y / 64 == w);
                        assert(!bits_of(0).contains(y % 64));
                    }
                }
            }
            w += 1;
        }
        proof {
            assert(members16(out@) =~= self@);
        }
        out
    }

    /// The block that holds the given values, which may come in any order
    /// and more than once.
    pub fn from_values(values: &Vec<u16>) -> (r: Self)
        ensures
            r.wf(),
            r@ == members16(values@),
    {
        let mut r = Self::new();
        let mut i: usize = 0;
        proof {
            assert(members16(values@.take(0)) =~= Set::<int>::empty());
        }
        while i < values.len()
            invariant
                i <= values.len(),
                r.wf(),
                r@ == members16(values@.take(i as int)),
            decreases values.len() - i,
        {
            proof {
                lemma_members16_take(values@, i as int);
            }
            r.insert(values[i]);
            i += 1;
        }
        proof {
            assert(values@.take(values.len() as int) =~= values@);
        }
        r
    }

    /// Number of maximal runs of consecutive values in the block.
    pub fn count_runs(&self) -> (r: u32)
        requires
            self.wf(),
        ensures
            r == runs(self@, 65536),
    {
        let mut n: u32 = 0;
        let mut carry: u64 = 0;
        let mut w: usize = 0;
        while w < UNIT
            invariant
                self.wf(),
                w <= UNIT,
                n == runs(self@, 64 * w),
                carry <= 1,
                (carry == 1) == self@.contains(64 * w - 1),
            decreases UNIT - w,
        {
            let x = self.vector[w];
            let starts: u64 = x & !((x << 1) | carry);
            proof {
                let s = run_starts(self@);
                let t = bits_of(starts);
                assert forall|j: int| 64 * w <= j < 64 * w + 64 implies (#[trigger] s.contains(j) <==> t.contains(
                    j - 64 * w + 0,
                )) by {
                    let i = j - 64 * w;
                    assert(j / 64 == w && j % 64 == i);
                    word::lemma_run_start_bits(x, carry, i);
                    if i > 0 {
                        assert((j - 1) / 64 == w && (j - 1) % 64 == i - 1);
                    }
                }
                lemma_count_window(s, t, 64 * w, 0, 64);
                lemma_count_bounds(s, 64 * w + 64);
                word::lemma_top_bit(x);
                assert((64 * w + 63) / 64 == w && (64 * w + 63) % 64 == 63);
            }
            n = n + word::count_ones(starts);
            carry = x >> 63;
            w += 1;
        }
        n
    }

    /// The block that `op` makes of this block and `that`, word by word.
    pub fn combine(&self, that: &Seq64, op: Op) -> (r: Self)
        requires
            self.wf(),
            that.wf(),
        ensures
            r.wf(),
            r@ == op.apply(self@, that@),
    {
        let mut vector: Vec<u64> = Vec::with_capacity(UNIT);
        let mut weight: u32 = 0;
        let mut w: usize = 0;
        while w < UNIT
            invariant
                self.wf(),
                that.wf(),
                w <= UNIT,
                vector.len() == w,
                weight == count(word_members(vector@), 64 * w),
                forall|i: int|
                    0 <= i < w ==> bits_of(#[trigger] vector[i]) == op.apply(
                        bits_of(self.items()[i]),
                        bits_of(that.items()[i]),
                    ),
            decreases UNIT - w,
        {
            let x = self.vector[w];
            let y = that.vector[w];
            let z: u64 = match op {
                Op::And => x & y,
                Op::Or => x | y,
                Op::AndNot => x & !y,
                Op::Xor => x ^ y,
            };
            let ghost before = vector@;
            vector.push(z);
            proof {
                word::lemma_and_bits(x, y);
                word::lemma_or_bits(x, y);
                word::lemma_and_not_bits(x, y);
                word::lemma_xor_bits(x, y);
                if op == Op::Xor {
                    assert(bits_of(z) =~= op.apply(bits_of(x), bits_of(y)));
                }
                assert forall|v: int| 0 <= v < 64 * w implies (word_members(before).contains(v) <==> word_members(
                    vector@,
                ).contains(v)) by {
                    assert(v / 64 < w);
                    assert(before[v / 64] == vector[v / 64]);
                }
                lemma_count_agree(word_members(before), word_members(vector@), 64 * w);
                lemma_word_window(vector@, w as int, 64);
                lemma_count_bounds(word_members(vector@), 64 * w + 64);
            }
            weight = weight + word::count_ones(z);
            w += 1;
        }
        let r = Sequence { weight, vector };
        proof {
            assert forall|v: int| r@.contains(v) <==> op.spec_keeps(self@.contains(v), that@.contains(v)) by {
                if 0 <= v < 65536 {
                    let i = v / 64;
                    op.lemma_apply(bits_of(self.items()[i]), bits_of(that.items()[i]));
                    assert(bits_of(r.items()[i]).contains(v % 64) <==> op.spec_keeps(
                        bits_of(self.items()[i]).contains(v % 64),
                        bits_of(that.items()[i]).contains(v % 64),
                    ));
                }
            }
            op.lemma_apply_is(self@, that@, r@);
        }
        r
    }
}

impl Clone for Seq64 {
    /// A copy with the same words and the same cached weight.
    fn clone(&self) -> (r: Self)
        ensures
            r.items() == self.items(),
            r.cached() == self.cached(),
    {
        let mut vector: Vec<u64> = Vec::with_capacity(self.vector.len());
        let mut i: usize = 0;
        while i < self.vector.len()
            invariant
                i <= self.vector.len(),
                vector@ == self.vector@.take(i as int),
            decreases self.vector.len() - i,
        {
            vector.push(self.vector[i]);
            proof {
                assert(vector@ =~= self.vector@.take(i + 1));
            }
            i += 1;
        }
        proof {
            assert(vector@ =~= self.vector@);
        }
        Sequence { weight: self.weight, vector }
    }
}

} // verus!

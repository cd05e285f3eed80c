//! The run-length encoding: the maximal ranges of consecutive values.

use vstd::prelude::*;
use crate::counting::{
    count, count_absent, is_select0, is_select1, lemma_count_all, lemma_count_bounds,
    increasing, lemma_count_empty, lemma_count_insert, lemma_count_members, lemma_count_none,
    lemma_count_remove, lemma_members16_push, lemma_members16_take, members, members16,
    run_starts, runs, sorted16, within,
};
use crate::inner::{Rle, Rle16, CAP32, RUN_BYTES, WEIGHT_BYTES};

verus! {

/// The values that the ranges `r` cover.
pub open spec fn run_members(r: Seq<(u16, u16)>) -> Set<int> {
    Set::new(|v: int| exists|i: int| 0 <= i < r.len() && (#[trigger] r[i]).0 <= v <= r[i].1)
}

/// No range is empty, and between the end of one range and the start of
/// the next lies at least one value: the ranges increase, do not overlap
/// and do not touch.
pub open spec fn runs_ok(r: Seq<(u16, u16)>) -> bool {
    &&& forall|i: int| 0 <= i < r.len() ==> (#[trigger] r[i]).0 <= r[i].1
    &&& forall|i: int, j: int| 0 <= i < j < r.len() ==> (#[trigger] r[i]).1 + 1 < (#[trigger] r[j]).0
}

/// Number of values that the first `k` ranges cover.
pub open spec fn run_total(r: Seq<(u16, u16)>, k: int) -> int
    decreases k,
{
    if k <= 0 {
        0
    } else {
        run_total(r, k - 1) + (r[k - 1].1 - r[k - 1].0 + 1)
    }
}

/// A value between ranges `k - 1` and `k` is no member.
pub proof fn lemma_run_gap(r: Seq<(u16, u16)>, k: int, x: int)
    requires
        runs_ok(r),
        0 <= k <= r.len(),
        k > 0 ==> r[k - 1].1 < x,
        k < r.len() ==> x < r[k].0,
    ensures
        !run_members(r).contains(x),
{
    if run_members(r).contains(x) {
        let i = choose|i: int| 0 <= i < r.len() && (#[trigger] r[i]).0 <= x <= r[i].1;
        if i < k {
            if i < k - 1 {
                assert(r[i].1 + 1 < r[k - 1].0);
                assert(r[k - 1].0 <= r[k - 1].1);
            }
        } else {
            if i > k {
                assert(r[k].1 + 1 < r[i].0);
                assert(r[k].0 <= r[k].1);
            }
        }
    }
}

/// Below a position that lies before range `k` and after range `k - 1`,
/// the members are the values of the first `k` ranges.
pub proof fn lemma_run_count(r: Seq<(u16, u16)>, k: int, x: int)
    requires
        runs_ok(r),
        0 <= k <= r.len(),
        0 <= x,
        k > 0 ==> r[k - 1].1 < x,
        k < r.len() ==> x <= r[k].0,
    ensures
        count(run_members(r), x) == run_total(r, k),
    decreases k,
{
    let s = run_members(r);
    if k == 0 {
        assert forall|j: int| 0 <= j < x implies !s.contains(j) by {
            lemma_run_gap(r, 0, j);
        }
        lemma_count_none(s, 0, x);
    } else {
        let a = r[k - 1].0 as int;
        let b = r[k - 1].1 as int;
        if k > 1 {
            assert(r[k - 2].1 + 1 < r[k - 1].0);
        }
        lemma_run_count(r, k - 1, a);
        assert forall|j: int| a <= j < b + 1 implies s.contains(j) by {
            assert(r[k - 1].0 <= j <= r[k - 1].1);
        }
        lemma_count_all(s, a, b + 1);
        assert forall|j: int| b + 1 <= j < x implies !s.contains(j) by {
            lemma_run_gap(r, k, j);
        }
        lemma_count_none(s, b + 1, x);
    }
}

/// Below a position inside range `k`, or just behind it, the members are
/// the values of the first `k` ranges and the values of range `k` up to
/// that position.
pub proof fn lemma_run_count_inside(r: Seq<(u16, u16)>, k: int, x: int)
    requires
        runs_ok(r),
        0 <= k < r.len(),
        r[k].0 <= x <= r[k].1 + 1,
    ensures
        count(run_members(r), x) == run_total(r, k) + (x - r[k].0),
{
    let s = run_members(r);
    let a = r[k].0 as int;
    if k > 0 {
        assert(r[k - 1].1 + 1 < r[k].0);
    }
    lemma_run_count(r, k, a);
    assert forall|j: int| a <= j < x implies s.contains(j) by {
        assert(r[k].0 <= j <= r[k].1);
    }
    lemma_count_all(s, a, x);
}

/// Whether the range `x` covers the value `v`.
pub open spec fn covers(x: (u16, u16), v: int) -> bool {
    x.0 <= v <= x.1
}

/// A new range of one value, put between two ranges that it does not touch.
proof fn lemma_insert_alone(r: Seq<(u16, u16)>, k: int, v: u16)
    requires
        runs_ok(r),
        0 <= k <= r.len(),
        k > 0 ==> r[k - 1].1 + 1 < v,
        k < r.len() ==> v + 1 < r[k].0,
    ensures
        runs_ok(r.insert(k, (v, v))),
        run_members(r.insert(k, (v, v))) == run_members(r).insert(v as int),
{
    let w = r.insert(k, (v, v));
    assert forall|i: int, j: int| 0 <= i < j < w.len() implies (#[trigger] w[i]).1 + 1 < (#[trigger] w[j]).0 by {
        let a = if i < k { i } else { i - 1 };
        let b = if j < k { j } else { j - 1 };
        if i == k {
            if b > k {
                assert(r[k].1 + 1 < r[b].0);
            }
            assert(r[k].0 <= r[b].0);
        } else if j == k {
            if a < k - 1 {
                assert(r[a].1 + 1 < r[k - 1].0);
            }
            assert(r[a].1 <= r[k - 1].1);
        } else {
            assert(r[a].1 + 1 < r[b].0);
        }
    }
    assert forall|i: int| 0 <= i < w.len() implies (#[trigger] w[i]).0 <= w[i].1 by {
        if i < k {
            assert(r[i].0 <= r[i].1);
        } else if i > k {
            assert(r[i - 1].0 <= r[i - 1].1);
        }
    }
    assert forall|y: int| run_members(w).contains(y) <==> run_members(r).insert(v as int).contains(y) by {
        if run_members(w).contains(y) {
            let i = choose|i: int| 0 <= i < w.len() && (#[trigger] w[i]).0 <= y <= w[i].1;
            if i < k {
                assert(covers(r[i], y));
            } else if i > k {
                assert(covers(r[i - 1], y));
            }
        }
        if run_members(r).contains(y) {
            let i = choose|i: int| 0 <= i < r.len() && (#[trigger] r[i]).0 <= y <= r[i].1;
            if i < k {
                assert(covers(w[i], y));
            } else {
                assert(covers(w[i + 1], y));
            }
        }
        if y == v as int {
            assert(covers(w[k], y));
        }
    }
    assert(run_members(w) =~= run_members(r).insert(v as int));
}

/// One range replaced by another one that covers `v` more or `v` less,
/// and that its neighbours still do not touch.
proof fn lemma_replace(r: Seq<(u16, u16)>, j: int, x: (u16, u16), v: int, grows: bool)
    requires
        runs_ok(r),
        0 <= j < r.len(),
        x.0 <= x.1,
        j > 0 ==> r[j - 1].1 + 1 < x.0,
        j + 1 < r.len() ==> x.1 + 1 < r[j + 1].0,
        grows ==> forall|y: int| covers(x, y) <==> (covers(r[j], y) || y == v),
        !grows ==> covers(r[j], v),
        !grows ==> forall|y: int| covers(x, y) <==> (covers(r[j], y) && y != v),
    ensures
        runs_ok(r.update(j, x)),
        grows ==> run_members(r.update(j, x)) == run_members(r).insert(v),
        !grows ==> run_members(r.update(j, x)) == run_members(r).remove(v),
{
    let w = r.update(j, x);
    assert forall|a: int, b: int| 0 <= a < b < w.len() implies (#[trigger] w[a]).1 + 1 < (#[trigger] w[b]).0 by {
        if a == j {
            if b > j + 1 {
                assert(r[j + 1].1 + 1 < r[b].0);
                assert(r[j + 1].0 <= r[j + 1].1);
            }
        } else if b == j {
            if a < j - 1 {
                assert(r[a].1 + 1 < r[j - 1].0);
                assert(r[j - 1].0 <= r[j - 1].1);
            }
        } else {
            assert(r[a].1 + 1 < r[b].0);
        }
    }
    assert forall|i: int| 0 <= i < w.len() implies (#[trigger] w[i]).0 <= w[i].1 by {
        if i != j {
            assert(r[i].0 <= r[i].1);
        }
    }
    let expected = if grows { run_members(r).insert(v) } else { run_members(r).remove(v) };
    assert forall|y: int| run_members(w).contains(y) <==> expected.contains(y) by {
        if run_members(w).contains(y) {
            let i = choose|i: int| 0 <= i < w.len() && (#[trigger] w[i]).0 <= y <= w[i].1;
            if i != j {
                assert(covers(r[i], y));
                if !grows {
                    // `v` lies in the old range `j`, which no other range touches
                    if i < j {
                        assert(r[i].1 + 1 < r[j].0);
                    } else {
                        assert(r[j].1 + 1 < r[i].0);
                    }
                }
            } else {
                assert(covers(x, y));
                if grows {
                    if y != v {
                        assert(covers(r[j], y));
                    }
                } else {
                    assert(covers(r[j], y));
                }
            }
        }
        if expected.contains(y) {
            if run_members(r).contains(y) {
                let i = choose|i: int| 0 <= i < r.len() && (#[trigger] r[i]).0 <= y <= r[i].1;
                if i != j {
                    assert(covers(w[i], y));
                } else {
                    assert(covers(r[j], y));
                    assert(covers(x, y));
                    assert(covers(w[j], y));
                }
            } else {
                assert(y == v && grows);
                assert(covers(x, y));
                assert(covers(w[j], y));
            }
        }
    }
    assert(run_members(w) =~= expected);
}

/// A range of one value taken away.
proof fn lemma_delete(r: Seq<(u16, u16)>, j: int)
    requires
        runs_ok(r),
        0 <= j < r.len(),
        r[j].0 == r[j].1,
    ensures
        runs_ok(r.remove(j)),
        run_members(r.remove(j)) == run_members(r).remove(r[j].0 as int),
{
    let w = r.remove(j);
    let v = r[j].0 as int;
    assert forall|a: int, b: int| 0 <= a < b < w.len() implies (#[trigger] w[a]).1 + 1 < (#[trigger] w[b]).0 by {
        let a0 = if a < j { a } else { a + 1 };
        let b0 = if b < j { b } else { b + 1 };
        assert(r[a0].1 + 1 < r[b0].0);
    }
    assert forall|i: int| 0 <= i < w.len() implies (#[trigger] w[i]).0 <= w[i].1 by {
        let i0 = if i < j { i } else { i + 1 };
        assert(r[i0].0 <= r[i0].1);
    }
    assert forall|y: int| run_members(w).contains(y) <==> run_members(r).remove(v).contains(y) by {
        if run_members(w).contains(y) {
            let i = choose|i: int| 0 <= i < w.len() && (#[trigger] w[i]).0 <= y <= w[i].1;
            let i0 = if i < j { i } else { i + 1 };
            assert(covers(r[i0], y));
            if i0 < j {
                assert(r[i0].1 + 1 < r[j].0);
            } else {
                assert(r[j].1 + 1 < r[i0].0);
            }
        }
        if run_members(r).remove(v).contains(y) {
            let i = choose|i: int| 0 <= i < r.len() && (#[trigger] r[i]).0 <= y <= r[i].1;
            if i < j {
                assert(covers(w[i], y));
            } else {
                assert(i > j);
                assert(covers(w[i - 1], y));
            }
        }
    }
    assert(run_members(w) =~= run_members(r).remove(v));
}

/// The one value between two ranges put in: the two become one range.
proof fn lemma_merge(r: Seq<(u16, u16)>, k: int, v: u16)
    requires
        runs_ok(r),
        0 < k < r.len(),
        r[k - 1].1 + 1 == v,
        v + 1 == r[k].0,
    ensures
        runs_ok(r.update(k - 1, (r[k - 1].0, r[k].1)).remove(k)),
        run_members(r.update(k - 1, (r[k - 1].0, r[k].1)).remove(k)) == run_members(r).insert(v as int),
{
    let x = (r[k - 1].0, r[k].1);
    let w = r.update(k - 1, x).remove(k);
    assert(r[k - 1].0 <= r[k - 1].1 && r[k].0 <= r[k].1);
    assert forall|a: int, b: int| 0 <= a < b < w.len() implies (#[trigger] w[a]).1 + 1 < (#[trigger] w[b]).0 by {
        let a0 = if a < k { a } else { a + 1 };
        let b0 = if b < k { b } else { b + 1 };
        if a == k - 1 {
            assert(r[k].1 + 1 < r[b0].0);
        } else if b == k - 1 {
            assert(r[a0].1 + 1 < r[k - 1].0);
        } else {
            assert(r[a0].1 + 1 < r[b0].0);
        }
    }
    assert forall|i: int| 0 <= i < w.len() implies (#[trigger] w[i]).0 <= w[i].1 by {
        let i0 = if i < k { i } else { i + 1 };
        assert(r[i0].0 <= r[i0].1);
    }
    assert forall|y: int| run_members(w).contains(y) <==> run_members(r).insert(v as int).contains(y) by {
        if run_members(w).contains(y) {
            let i = choose|i: int| 0 <= i < w.len() && (#[trigger] w[i]).0 <= y <= w[i].1;
            if i == k - 1 {
                if y < v {
                    assert(covers(r[k - 1], y));
                } else if y > v {
                    assert(covers(r[k], y));
                }
            } else {
                let i0 = if i < k { i } else { i + 1 };
                assert(covers(r[i0], y));
            }
        }
        if run_members(r).insert(v as int).contains(y) {
            if y == v as int {
                assert(covers(w[k - 1], y));
            } else {
                let i = choose|i: int| 0 <= i < r.len() && (#[trigger] r[i]).0 <= y <= r[i].1;
                if i < k - 1 {
                    assert(covers(w[i], y));
                } else if i == k - 1 || i == k {
                    assert(covers(w[k - 1], y));
                } else {
                    assert(covers(w[i - 1], y));
                }
            }
        }
    }
    assert(run_members(w) =~= run_members(r).insert(v as int));
}

/// A value taken out of the inside of a range: the range becomes two.
proof fn lemma_split(r: Seq<(u16, u16)>, j: int, v: u16)
    requires
        runs_ok(r),
        0 <= j < r.len(),
        r[j].0 < v < r[j].1,
    ensures
        runs_ok(r.update(j, (r[j].0, (v - 1) as u16)).insert(j + 1, ((v + 1) as u16, r[j].1))),
        run_members(r.update(j, (r[j].0, (v - 1) as u16)).insert(j + 1, ((v + 1) as u16, r[j].1))) == run_members(
            r,
        ).remove(v as int),
{
    let lo = (r[j].0, (v - 1) as u16);
    let hi = ((v + 1) as u16, r[j].1);
    let w = r.update(j, lo).insert(j + 1, hi);
    assert forall|a: int, b: int| 0 <= a < b < w.len() implies (#[trigger] w[a]).1 + 1 < (#[trigger] w[b]).0 by {
        let a0 = if a <= j { a } else { a - 1 };
        let b0 = if b <= j { b } else { b - 1 };
        if a0 < b0 {
            assert(r[a0].1 + 1 < r[b0].0);
            assert(r[j].0 <= r[j].1);
        }
    }
    assert forall|i: int| 0 <= i < w.len() implies (#[trigger] w[i]).0 <= w[i].1 by {
        let i0 = if i <= j { i } else { i - 1 };
        assert(r[i0].0 <= r[i0].1);
    }
    assert forall|y: int| run_members(w).contains(y) <==> run_members(r).remove(v as int).contains(y) by {
        if run_members(w).contains(y) {
            let i = choose|i: int| 0 <= i < w.len() && (#[trigger] w[i]).0 <= y <= w[i].1;
            let i0 = if i <= j { i } else { i - 1 };
            assert(covers(r[i0], y));
            if i0 < j {
                assert(r[i0].1 + 1 < r[j].0);
            } else if i0 > j {
                assert(r[j].1 + 1 < r[i0].0);
            }
        }
        if run_members(r).remove(v as int).contains(y) {
            let i = choose|i: int| 0 <= i < r.len() && (#[trigger] r[i]).0 <= y <= r[i].1;
            if i < j {
                assert(covers(w[i], y));
            } else if i == j {
                if y < v {
                    assert(covers(w[j], y));
                } else {
                    assert(covers(w[j + 1], y));
                }
            } else {
                assert(covers(w[i + 1], y));
            }
        }
    }
    assert(run_members(w) =~= run_members(r).remove(v as int));
}

impl View for Rle16 {
    type V = Set<int>;

    /// The values in the block.
    open spec fn view(&self) -> Set<int> {
        run_members(self.items())
    }
}

impl Rle16 {
    /// The ranges are maximal runs in increasing order, and the cached
    /// weight is the number of values that they cover.
    pub open spec fn wf(&self) -> bool {
        &&& runs_ok(self.items())
        &&& self.cached() == count(self@, 65536)
    }

    /// What a well-formed run-length block holds: values below 65536, as
    /// many as the cached weight says, which is what the ranges cover.
    pub proof fn lemma_wf(&self)
        requires
            self.wf(),
        ensures
            within(self@, 65536),
            count(self@, 65536) == self.cached(),
            self.cached() == run_total(self.items(), self.items().len() as int),
            self.cached() <= CAP32,
    {
        lemma_count_bounds(self@, 65536);
        lemma_run_count(self.items(), self.items().len() as int, 65536);
    }

    /// An empty block.
    pub fn new() -> (r: Self)
        ensures
            r.wf(),
            r@ == Set::<int>::empty(),
    {
        let r = Rle { weight: 0, ranges: Vec::new() };
        proof {
            assert(r@ =~= Set::<int>::empty());
            lemma_count_empty(65536);
        }
        r
    }

    /// Bytes taken by a run-length block of `runlen` ranges.
    pub fn size_in_bytes(runlen: usize) -> (r: usize)
        requires
            runlen * RUN_BYTES + WEIGHT_BYTES <= usize::MAX,
        ensures
            r == runlen * RUN_BYTES + WEIGHT_BYTES,
    {
        runlen * RUN_BYTES + WEIGHT_BYTES
    }

    /// Bytes taken by this block.
    pub fn mem_size(&self) -> (r: usize)
        requires
            self.items().len() <= CAP32,
        ensures
            r == self.items().len() * RUN_BYTES + WEIGHT_BYTES,
    {
        Self::size_in_bytes(self.ranges.len())
    }

    /// Number of ranges that start at `value` or below it, found by bisection.
    fn locate(&self, value: u16) -> (k: usize)
        requires
            runs_ok(self.items()),
        ensures
            k <= self.items().len(),
            forall|j: int| 0 <= j < k ==> (#[trigger] self.items()[j]).0 <= value,
            forall|j: int| k <= j < self.items().len() ==> value < (#[trigger] self.items()[j]).0,
    {
        let mut lo: usize = 0;
        let mut hi: usize = self.ranges.len();
        while lo < hi
            invariant
                runs_ok(self.items()),
                lo <= hi <= self.ranges.len(),
                forall|j: int| 0 <= j < lo ==> (#[trigger] self.items()[j]).0 <= value,
                forall|j: int| hi <= j < self.items().len() ==> value < (#[trigger] self.items()[j]).0,
            decreases hi - lo,
        {
            let mid: usize = lo + (hi - lo) / 2;
            proof {
                assert forall|j: int| 0 <= j < mid implies (#[trigger] self.items()[j]).0 <= self.items()[mid as int].0 by {
                    assert(self.items()[j].1 + 1 < self.items()[mid as int].0);
                }
                assert forall|j: int| mid < j < self.items().len() implies self.items()[mid as int].0 < (
                #[trigger] self.items()[j]).0 by {
                    assert(self.items()[mid as int].1 + 1 < self.items()[j].0);
                }
            }
            if self.ranges[mid].0 <= value {
                lo = mid + 1;
            } else {
                hi = mid;
            }
        }
        lo
    }

    /// Whether `value` is in the block.
    pub fn contains(&self, value: u16) -> (r: bool)
        requires
            self.wf(),
        ensures
            r == self@.contains(value as int),
    {
        let k = self.locate(value);
        if k > 0 && value <= self.ranges[k - 1].1 {
            proof {
                assert(self.items()[k - 1].0 <= value <= self.items()[k - 1].1);
            }
            true
        } else {
            proof {
                lemma_run_gap(self.items(), k as int, value as int);
            }
            false
        }
    }

    /// Number of values in the block that are smaller than `i`: the range
    /// that `i` lies in or behind is found by bisection, the ranges before
    /// it count in full, and that range counts up to `i`.
    pub fn rank1(&self, i: u16) -> (r: u32)
        requires
            self.wf(),
        ensures
            r == count(self@, i as int),
    {
        let k = self.locate(i);
        if k == 0 {
            proof {
                lemma_run_count(self.items(), 0, i as int);
            }
            return 0;
        }
        let last: usize = k - 1;
        let mut acc: u32 = 0;
        let mut j: usize = 0;
        while j < last
            invariant
                self.wf(),
                j <= last < self.ranges.len(),
                acc == run_total(self.items(), j as int),
            decreases last - j,
        {
            let (a, b) = self.ranges[j];
            proof {
                lemma_run_count_inside(self.items(), j as int, b + 1);
                lemma_count_bounds(self@, b + 1);
            }
            acc = acc + ((b - a) as u32 + 1);
            j += 1;
        }
        let (a, b) = self.ranges[last];
        proof {
            lemma_run_count_inside(self.items(), last as int, b + 1);
            lemma_count_bounds(self@, b + 1);
        }
        if b >= i {
            proof {
                lemma_run_count_inside(self.items(), last as int, i as int);
            }
            acc + (i - a) as u32
        } else {
            proof {
                lemma_run_count(self.items(), k as int, i as int);
            }
            acc + ((b - a) as u32 + 1)
        }
    }

    /// Number of values below `i` that the block lacks.
    pub fn rank0(&self, i: u16) -> (r: u32)
        requires
            self.wf(),
        ensures
            r == count_absent(self@, i as int),
    {
        proof {
            lemma_count_bounds(self@, i as int);
        }
        i as u32 - self.rank1(i)
    }

    /// The value of the block that has exactly `c` values of the block
    /// below it, or nothing where the block has no more than `c` values.
    pub fn select1(&self, c: u16) -> (r: Option<u16>)
        requires
            self.wf(),
        ensures
            match r {
                Some(p) => is_select1(self@, c as int, p as int),
                None => c >= count(self@, 65536),
            },
    {
        let mut acc: u32 = 0;
        let mut j: usize = 0;
        while j < self.ranges.len()
            invariant
                self.wf(),
                j <= self.ranges.len(),
                acc == run_total(self.items(), j as int),
                acc <= c,
            decreases self.ranges.len() - j,
        {
            let (a, b) = self.ranges[j];
            let n: u32 = (b - a) as u32 + 1;
            if acc + n > c as u32 {
                let p: u16 = a + (c as u32 - acc) as u16;
                proof {
                    lemma_run_count_inside(self.items(), j as int, p as int);
                    assert(self.items()[j as int].0 <= p <= self.items()[j as int].1);
                }
                return Some(p);
            }
            acc = acc + n;
            j += 1;
        }
        proof {
            self.lemma_wf();
        }
        None
    }

    /// The value missing from the block that has exactly `c` missing values
    /// below it, or nothing where the block lacks no more than `c` values.
    pub fn select0(&self, c: u16) -> (r: Option<u16>)
        requires
            self.wf(),
        ensures
            match r {
                Some(p) => is_select0(self@, c as int, p as int),
                None => c >= count_absent(self@, 65536),
            },
    {
        let mut acc: u32 = 0;
        let mut j: usize = 0;
        while j < self.ranges.len()
            invariant
                self.wf(),
                j <= self.ranges.len(),
                acc == run_total(self.items(), j as int),
                j > 0 ==> self.items()[j - 1].1 + 1 - acc <= c,
                acc <= 65536,
            decreases self.ranges.len() - j,
        {
            let (a, b) = self.ranges[j];
            proof {
                lemma_run_count_inside(self.items(), j as int, a as int);
                lemma_run_count_inside(self.items(), j as int, b + 1);
                lemma_count_bounds(self@, a as int);
                lemma_count_bounds(self@, b + 1);
            }
            if a as u32 - acc > c as u32 {
                let p: u32 = c as u32 + acc;
                proof {
                    lemma_run_count(self.items(), j as int, p as int);
                    if p < a {
                        lemma_run_gap(self.items(), j as int, p as int);
                    }
                }
                return Some(p as u16);
            }
            acc = acc + ((b - a) as u32 + 1);
            j += 1;
        }
        let p: u32 = c as u32 + acc;
        proof {
            self.lemma_wf();
        }
        if p < 65536 {
            proof {
                lemma_run_count(self.items(), j as int, p as int);
                lemma_run_gap(self.items(), j as int, p as int);
            }
            Some(p as u16)
        } else {
            None
        }
    }

    /// Puts `value` into the block. Returns whether it was missing before.
    pub fn insert(&mut self, value: u16) -> (r: bool)
        requires
            old(self).wf(),
        ensures
            final(self).wf(),
            final(self)@ == old(self)@.insert(value as int),
            r == !old(self)@.contains(value as int),
    {
        let k = self.locate(value);
        if k > 0 && value <= self.ranges[k - 1].1 {
            proof {
                assert(covers(self.items()[k - 1], value as int));
                assert(self@.insert(value as int) =~= self@);
            }
            return false;
        }
        proof {
            lemma_run_gap(self.items(), k as int, value as int);
            lemma_count_insert(self@, value as int, 65536);
            lemma_count_bounds(self@.insert(value as int), 65536);
            if k > 0 {
                assert(self.items()[k - 1].0 <= self.items()[k - 1].1);
            }
            if 0 < k < self.items().len() {
                assert(self.items()[k - 1].1 + 1 < self.items()[k as int].0);
            }
        }
        let left: bool = k > 0 && self.ranges[k - 1].1 + 1 == value;
        let right: bool = k < self.ranges.len() && value + 1 == self.ranges[k].0;
        if left && right {
            let x: (u16, u16) = (self.ranges[k - 1].0, self.ranges[k].1);
            proof {
                lemma_merge(self.items(), k as int, value);
            }
            self.ranges[k - 1] = x;
            self.ranges.remove(k);
        } else if left {
            let x: (u16, u16) = (self.ranges[k - 1].0, value);
            proof {
                if k > 1 {
                    assert(self.items()[k - 2].1 + 1 < self.items()[k - 1].0);
                }
                lemma_replace(self.items(), k - 1, x, value as int, true);
            }
            self.ranges[k - 1] = x;
        } else if right {
            let x: (u16, u16) = (value, self.ranges[k].1);
            proof {
                assert(self.items()[k as int].0 <= self.items()[k as int].1);
                if k + 1 < self.items().len() {
                    assert(self.items()[k as int].1 + 1 < self.items()[k + 1].0);
                }
                lemma_replace(self.items(), k as int, x, value as int, true);
            }
            self.ranges[k] = x;
        } else {
            proof {
                lemma_insert_alone(self.items(), k as int, value);
            }
            self.ranges.insert(k, (value, value));
        }
        self.weight = self.weight + 1;
        true
    }

    /// Takes `value` out of the block. Returns whether it was there before.
    pub fn remove(&mut self, value: u16) -> (r: bool)
        requires
            old(self).wf(),
        ensures
            final(self).wf(),
            final(self)@ == old(self)@.remove(value as int),
            r == old(self)@.contains(value as int),
    {
        let k = self.locate(value);
        if k == 0 || value > self.ranges[k - 1].1 {
            proof {
                lemma_run_gap(self.items(), k as int, value as int);
                assert(self@.remove(value as int) =~= self@);
            }
            return false;
        }
        let j: usize = k - 1;
        let (a, b) = self.ranges[j];
        proof {
            assert(covers(self.items()[j as int], value as int));
            lemma_count_remove(self@, value as int, 65536);
            if j > 0 {
                assert(self.items()[j - 1].1 + 1 < self.items()[j as int].0);
            }
            if j + 1 < self.items().len() {
                assert(self.items()[j as int].1 + 1 < self.items()[j + 1].0);
            }
        }
        if a == b {
            proof {
                lemma_delete(self.items(), j as int);
            }
            self.ranges.remove(j);
        } else if value == a {
            let x: (u16, u16) = (a + 1, b);
            proof {
                lemma_replace(self.items(), j as int, x, value as int, false);
            }
            self.ranges[j] = x;
        } else if value == b {
            let x: (u16, u16) = (a, b - 1);
            proof {
                lemma_replace(self.items(), j as int, x, value as int, false);
            }
            self.ranges[j] = x;
        } else {
            proof {
                lemma_split(self.items(), j as int, value);
            }
            self.ranges[j] = (a, value - 1);
            self.ranges.insert(j + 1, (value + 1, b));
        }
        self.weight = self.weight - 1;
        true
    }

    /// The values of the block, in increasing order.
    pub fn values(&self) -> (r: Vec<u16>)
        requires
            self.wf(),
        ensures
            sorted16(r@),
            members16(r@) == self@,
    {
        let mut out: Vec<u16> = Vec::new();
        let mut j: usize = 0;
        proof {
            assert(members16(out@) =~= Set::<int>::empty());
        }
        while j < self.ranges.len()
            invariant
                self.wf(),
                j <= self.ranges.len(),
                sorted16(out@),
                forall|i: int| 0 <= i < out.len() && j < self.items().len() ==> out[i] + 1 < self.items()[j as int].0,
                forall|y: int|
                    members16(out@).contains(y) <==> (self@.contains(y) && (j < self.items().len() ==> y
                        < self.items()[j as int].0)),
            decreases self.ranges.len() - j,
        {
            let (a, b) = self.ranges[j];
            let mut v: u32 = a as u32;
            while v <= b as u32
                invariant
                    self.wf(),
                    j < self.ranges.len(),
                    (a, b) == self.items()[j as int],
                    a <= v <= b + 1,
                    sorted16(out@),
                    forall|i: int| 0 <= i < out.len() ==> out[i] < v,
                    forall|y: int| members16(out@).contains(y) <==> (self@.contains(y) && y < v),
                decreases b + 1 - v,
            {
                proof {
                    lemma_members16_push(out@, v as u16);
                    let grown = out@.push(v as u16);
                    assert(sorted16(grown)) by {
                        assert forall|i: int, k: int| 0 <= i < k < grown.len() implies grown[i] < grown[k] by {
                            if k < out.len() {
                                assert(out[i] < out[k]);
                            }
                        }
                    }
                    assert(covers(self.items()[j as int], v as int));
                }
                out.push(v as u16);
                v += 1;
            }
            proof {
                assert forall|y: int|
                    members16(out@).contains(y) <==> (self@.contains(y) && (j + 1 < self.items().len() ==> y
                        < self.items()[j + 1].0)) by {
                    if j + 1 < self.items().len() {
                        assert(self.items()[j as int].1 + 1 < self.items()[j + 1].0);
                        if b < y < self.items()[j + 1].0 {
                            lemma_run_gap(self.items(), j + 1, y);
                        }
                    } else {
                        if b < y {
                            lemma_run_gap(self.items(), j + 1, y);
                        }
                    }
                }
                if j + 1 < self.items().len() {
                    assert(self.items()[j as int].1 + 1 < self.items()[j + 1].0);
                }
            }
            j += 1;
        }
        proof {
            assert(members16(out@) =~= self@);
        }
        out
    }

    /// The block that holds the given values, which may come in any order
    /// and more than once.
    pub fn from_values(values: &Vec<u16>) -> (r: Self)
        ensures
            r.wf(),
            r@ == members16(values@),
    {
        let mut r = Self::new();
        let mut i: usize = 0;
        proof {
            assert(members16(values@.take(0)) =~= Set::<int>::empty());
        }
        while i < values.len()
            invariant
                i <= values.len(),
                r.wf(),
                r@ == members16(values@.take(i as int)),
            decreases values.len() - i,
        {
            proof {
                lemma_members16_take(values@, i as int);
            }
            r.insert(values[i]);
            i += 1;
        }
        proof {
            assert(values@.take(values.len() as int) =~= values@);
        }
        r
    }

    /// The positions at which the runs of the block begin are the first
    /// values of its ranges, so there are as many runs as ranges.
    pub proof fn lemma_runs(&self)
        requires
            self.wf(),
        ensures
            runs(self@, 65536) == self.items().len(),
            self.items().len() <= 32768,
    {
        let r = self.items();
        let starts = Seq::new(r.len(), |i: int| r[i].0 as int);
        assert(increasing(starts)) by {
            assert forall|i: int, j: int| 0 <= i < j < starts.len() implies starts[i] < starts[j] by {
                assert(r[i].1 + 1 < r[j].0);
                assert(r[i].0 <= r[i].1);
            }
        }
        lemma_count_members(starts, r.len() as int, 65536);
        assert forall|y: int| members(starts).contains(y) <==> run_starts(self@).contains(y) by {
            if members(starts).contains(y) {
                let i = choose|i: int| 0 <= i < starts.len() && starts[i] == y;
                assert(r[i].0 <= r[i].1);
                assert(covers(r[i], y));
                if i > 0 {
                    assert(r[i - 1].1 + 1 < r[i].0);
                }
                lemma_run_gap(r, i, y - 1);
            }
            if run_starts(self@).contains(y) {
                let i = choose|i: int| 0 <= i < r.len() && (#[trigger] r[i]).0 <= y <= r[i].1;
                if r[i].0 < y {
                    assert(covers(r[i], y - 1));
                }
                assert(starts[i] == y);
            }
        }
        assert(members(starts) =~= run_starts(self@));
        self.lemma_span(r.len() as int);
    }

    /// The first `k` ranges span at least `2 * k - 1` values.
    proof fn lemma_span(&self, k: int)
        requires
            self.wf(),
            0 <= k <= self.items().len(),
        ensures
            k > 0 ==> self.items()[k - 1].1 >= 2 * k - 2,
        decreases k,
    {
        if k > 1 {
            self.lemma_span(k - 1);
            assert(self.items()[k - 2].1 + 1 < self.items()[k - 1].0);
            assert(self.items()[k - 1].0 <= self.items()[k - 1].1);
        } else if k == 1 {
            assert(self.items()[0].0 <= self.items()[0].1);
        }
    }

    /// Number of maximal runs of consecutive values in the block.
    pub fn count_runs(&self) -> (r: u32)
        requires
            self.wf(),
        ensures
            r == runs(self@, 65536),
    {
        proof {
            self.lemma_runs();
        }
        self.ranges.len() as u32
    }
}

impl Clone for Rle16 {
    /// A copy with the same ranges and the same cached weight.
    fn clone(&self) -> (r: Self)
        ensures
            r.items() == self.items(),
            r.cached() == self.cached(),
    {
        let mut ranges: Vec<(u16, u16)> = Vec::with_capacity(self.ranges.len());
        let mut i: usize = 0;
        while i < self.ranges.len()
            invariant
                i <= self.ranges.len(),
                ranges@ == self.ranges@.take(i as int),
            decreases self.ranges.len() - i,
        {
            ranges.push(self.ranges[i]);
            proof {
                assert(ranges@ =~= self.ranges@.take(i + 1));
            }
            i += 1;
        }
        proof {
            assert(ranges@ =~= self.ranges@);
        }
        Rle { weight: self.weight, ranges }
    }
}

} // verus!

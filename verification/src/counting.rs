//! The mathematical model shared by every container in this crate.
//!
//! A container denotes a set of non-negative integers (`Set<int>`). Rank is
//! the number of members strictly below a position; select is the inverse of
//! rank. Everything here is ghost code: definitions and the lemmas about
//! them that the executable modules rely on.

use vstd::prelude::*;

verus! {

/// Number of members of `s` in `[0, i)`.
pub open spec fn count(s: Set<int>, i: int) -> nat
    decreases i,
{
    if i <= 0 {
        0
    } else {
        count(s, i - 1) + if s.contains(i - 1) { 1nat } else { 0nat }
    }
}

/// Number of non-members of `s` in `[0, i)`.
pub open spec fn count_absent(s: Set<int>, i: int) -> int {
    i - count(s, i)
}

/// `p` is the position of the member of `s` that has exactly `c` members below it.
pub open spec fn is_select1(s: Set<int>, c: int, p: int) -> bool {
    0 <= p && s.contains(p) && count(s, p) == c
}

/// `p` is the position of the non-member of `s` that has exactly `c` non-members below it.
pub open spec fn is_select0(s: Set<int>, c: int, p: int) -> bool {
    0 <= p && !s.contains(p) && count_absent(s, p) == c
}

/// The positions at which a run of consecutive members begins.
pub open spec fn run_starts(s: Set<int>) -> Set<int> {
    Set::new(|i: int| s.contains(i) && !s.contains(i - 1))
}

/// Number of maximal runs of consecutive members of `s` that begin in `[0, i)`.
pub open spec fn runs(s: Set<int>, i: int) -> nat {
    count(run_starts(s), i)
}

/// All members of `s` lie in `[0, n)`.
pub open spec fn within(s: Set<int>, n: int) -> bool {
    forall|v: int| s.contains(v) ==> 0 <= v < n
}

/// The members of a sequence of integers, as a set.
pub open spec fn members(v: Seq<int>) -> Set<int> {
    Set::new(|x: int| exists|i: int| 0 <= i < v.len() && v[i] == x)
}

/// A sequence of 16-bit values as a sequence of integers.
pub open spec fn ints16(v: Seq<u16>) -> Seq<int> {
    Seq::new(v.len(), |i: int| v[i] as int)
}

/// Each element is smaller than the next.
pub open spec fn increasing(v: Seq<int>) -> bool {
    forall|i: int, j: int| 0 <= i < j < v.len() ==> v[i] < v[j]
}

/// There are no more members below a position than positions.
pub proof fn lemma_count_bounds(s: Set<int>, i: int)
    ensures
        count(s, i) <= if i <= 0 { 0 } else { i },
    decreases i,
{
    if i > 0 {
        lemma_count_bounds(s, i - 1);
    }
}

/// Counting is monotone, and grows by at most one per position.
pub proof fn lemma_count_mono(s: Set<int>, i: int, j: int)
    requires
        0 <= i <= j,
    ensures
        count(s, i) <= count(s, j) <= count(s, i) + (j - i),
    decreases j - i,
{
    if i < j {
        lemma_count_mono(s, i, j - 1);
    }
}

/// Two sets that agree on two windows of the same width have the same
/// number of members in them.
pub proof fn lemma_count_window(s: Set<int>, t: Set<int>, a: int, b: int, n: int)
    requires
        0 <= a,
        0 <= b,
        0 <= n,
        forall|j: int| a <= j < a + n ==> (#[trigger] s.contains(j) <==> t.contains(j - a + b)),
    ensures
        count(s, a + n) - count(s, a) == count(t, b + n) - count(t, b),
    decreases n,
{
    if n > 0 {
        lemma_count_window(s, t, a, b, n - 1);
        assert(s.contains(a + n - 1) <==> t.contains(a + n - 1 - a + b));
    }
}

/// Two sets that agree below `n` have the same count at `n`.
pub proof fn lemma_count_agree(s: Set<int>, t: Set<int>, n: int)
    requires
        forall|j: int| 0 <= j < n ==> (s.contains(j) <==> t.contains(j)),
    ensures
        count(s, n) == count(t, n),
{
    if n > 0 {
        lemma_count_window(s, t, 0, 0, n);
    }
}

/// A window without members adds nothing to the count.
pub proof fn lemma_count_none(s: Set<int>, a: int, b: int)
    requires
        0 <= a <= b,
        forall|j: int| a <= j < b ==> !s.contains(j),
    ensures
        count(s, b) == count(s, a),
    decreases b - a,
{
    if a < b {
        lemma_count_none(s, a, b - 1);
    }
}

/// A window made of members only adds its width to the count.
pub proof fn lemma_count_all(s: Set<int>, a: int, b: int)
    requires
        0 <= a <= b,
        forall|j: int| a <= j < b ==> s.contains(j),
    ensures
        count(s, b) == count(s, a) + (b - a),
    decreases b - a,
{
    if a < b {
        lemma_count_all(s, a, b - 1);
    }
}

/// A member separates the counts on its two sides.
pub proof fn lemma_count_strict(s: Set<int>, p: int, q: int)
    requires
        0 <= p < q,
        s.contains(p),
    ensures
        count(s, p) < count(s, q),
{
    lemma_count_mono(s, p + 1, q);
}

/// A non-member separates the counts of non-members on its two sides.
pub proof fn lemma_count_absent_strict(s: Set<int>, p: int, q: int)
    requires
        0 <= p < q,
        !s.contains(p),
    ensures
        count_absent(s, p) < count_absent(s, q),
{
    lemma_count_mono(s, p + 1, q);
}

/// What inserting a value does to the count.
pub proof fn lemma_count_insert(s: Set<int>, v: int, i: int)
    requires
        0 <= v,
    ensures
        count(s.insert(v), i) == count(s, i) + if v < i && !s.contains(v) { 1nat } else { 0nat },
    decreases i,
{
    if i > 0 {
        lemma_count_insert(s, v, i - 1);
    }
}

/// What removing a value does to the count.
pub proof fn lemma_count_remove(s: Set<int>, v: int, i: int)
    requires
        0 <= v,
    ensures
        count(s.remove(v), i) == count(s, i) - if v < i && s.contains(v) { 1nat } else { 0nat },
    decreases i,
{
    if i > 0 {
        lemma_count_remove(s, v, i - 1);
    }
}

/// The empty set has no members anywhere.
pub proof fn lemma_count_empty(i: int)
    ensures
        count(Set::<int>::empty(), i) == 0,
    decreases i,
{
    if i > 0 {
        lemma_count_empty(i - 1);
    }
}

/// A set with a count of zero at `n` has no member below `n`.
pub proof fn lemma_count_zero(s: Set<int>, n: int, v: int)
    requires
        count(s, n) == 0,
        0 <= v < n,
    ensures
        !s.contains(v),
{
    if s.contains(v) {
        lemma_count_strict(s, v, n);
    }
}

/// Inclusion and exclusion: the counts of a union and an intersection add
/// up to the counts of the two sets.
pub proof fn lemma_count_union_intersect(a: Set<int>, b: Set<int>, i: int)
    ensures
        count(a.union(b), i) + count(a.intersect(b), i) == count(a, i) + count(b, i),
    decreases i,
{
    if i > 0 {
        lemma_count_union_intersect(a, b, i - 1);
    }
}

/// A difference and the intersection it leaves out add up to the first set.
pub proof fn lemma_count_difference(a: Set<int>, b: Set<int>, i: int)
    ensures
        count(a.difference(b), i) + count(a.intersect(b), i) == count(a, i),
    decreases i,
{
    if i > 0 {
        lemma_count_difference(a, b, i - 1);
    }
}

/// In an increasing sequence, the count of its members below `x` is the
/// number of elements smaller than `x`.
pub proof fn lemma_count_members(v: Seq<int>, k: int, x: int)
    requires
        increasing(v),
        0 <= k <= v.len(),
        forall|i: int| 0 <= i < v.len() ==> 0 <= v[i],
        k > 0 ==> v[k - 1] < x,
        k < v.len() ==> x <= v[k],
    ensures
        count(members(v), x) == k,
    decreases x,
{
    let s = members(v);
    if x <= 0 {
        if k > 0 {
            assert(0 <= v[k - 1]);
        }
    } else if k > 0 && v[k - 1] == x - 1 {
        assert(s.contains(x - 1));
        lemma_count_members(v, k - 1, x - 1);
    } else {
        if s.contains(x - 1) {
            let j = choose|j: int| 0 <= j < v.len() && v[j] == x - 1;
            if j < k {
                if j < k - 1 {
                    assert(v[j] < v[k - 1]);
                }
            } else if j > k {
                assert(v[k] < v[j]);
            }
        }
        lemma_count_members(v, k, x - 1);
    }
}

/// The two positions that answer the same select query are one position.
pub proof fn lemma_select1_unique(s: Set<int>, c: int, p: int, q: int)
    requires
        is_select1(s, c, p),
        is_select1(s, c, q),
    ensures
        p == q,
{
    if p < q {
        lemma_count_strict(s, p, q);
    } else if q < p {
        lemma_count_strict(s, q, p);
    }
}

/// The two positions that answer the same select query for non-members are one position.
pub proof fn lemma_select0_unique(s: Set<int>, c: int, p: int, q: int)
    requires
        is_select0(s, c, p),
        is_select0(s, c, q),
    ensures
        p == q,
{
    if p < q {
        lemma_count_absent_strict(s, p, q);
    } else if q < p {
        lemma_count_absent_strict(s, q, p);
    }
}

/// Where one set holds exactly what the other lacks below `n`, the members
/// of the one are counted by the non-members of the other.
pub proof fn lemma_complement(s: Set<int>, t: Set<int>, n: int)
    requires
        0 <= n,
        forall|j: int| 0 <= j < n ==> (s.contains(j) <==> !t.contains(j)),
    ensures
        count(t, n) == count_absent(s, n),
    decreases n,
{
    if n > 0 {
        lemma_complement(s, t, n - 1);
    }
}

/// Each 16-bit value is smaller than the next.
pub open spec fn sorted16(v: Seq<u16>) -> bool {
    forall|i: int, j: int| 0 <= i < j < v.len() ==> v[i] < v[j]
}

/// The members of a sequence of 16-bit values, as a set of integers.
pub open spec fn members16(v: Seq<u16>) -> Set<int> {
    Set::new(|x: int| exists|i: int| 0 <= i < v.len() && v[i] as int == x)
}

/// In a sorted sequence of 16-bit values, the count of its members below
/// `x` is the number of elements smaller than `x`.
pub proof fn lemma_count_members16(v: Seq<u16>, k: int, x: int)
    requires
        sorted16(v),
        0 <= k <= v.len(),
        k > 0 ==> v[k - 1] < x,
        k < v.len() ==> x <= v[k],
    ensures
        count(members16(v), x) == k,
{
    let w = ints16(v);
    assert(increasing(w));
    lemma_count_members(w, k, x);
    assert forall|y: int| members(w).contains(y) <==> members16(v).contains(y) by {
        if members(w).contains(y) {
            let i = choose|i: int| 0 <= i < w.len() && w[i] == y;
            assert(v[i] as int == y);
        }
        if members16(v).contains(y) {
            let i = choose|i: int| 0 <= i < v.len() && v[i] as int == y;
            assert(w[i] == y);
        }
    }
    assert(members(w) =~= members16(v));
}

/// A sorted sequence of 16-bit values has at most 65536 elements, all of
/// them members below 65536, and as many members as elements.
pub proof fn lemma_sorted16(v: Seq<u16>)
    requires
        sorted16(v),
    ensures
        v.len() <= 65536,
        within(members16(v), 65536),
        count(members16(v), 65536) == v.len(),
{
    lemma_count_members16(v, v.len() as int, 65536);
    lemma_count_bounds(members16(v), 65536);
}

/// Inserting an element into a sequence inserts it into the set of members.
pub proof fn lemma_members16_insert(v: Seq<u16>, k: int, x: u16)
    requires
        0 <= k <= v.len(),
    ensures
        members16(v.insert(k, x)) == members16(v).insert(x as int),
{
    let w = v.insert(k, x);
    assert forall|y: int| members16(w).contains(y) <==> members16(v).insert(x as int).contains(y) by {
        if members16(w).contains(y) {
            let i = choose|i: int| 0 <= i < w.len() && w[i] as int == y;
            if i < k {
                assert(v[i] as int == y);
            } else if i > k {
                assert(v[i - 1] as int == y);
            }
        }
        if members16(v).contains(y) {
            let i = choose|i: int| 0 <= i < v.len() && v[i] as int == y;
            if i < k {
                assert(w[i] as int == y);
            } else {
                assert(w[i + 1] as int == y);
            }
        }
        if y == x as int {
            assert(w[k] as int == y);
        }
    }
    assert(members16(w) =~= members16(v).insert(x as int));
}

/// Removing an element from a sorted sequence removes it from the set of members.
pub proof fn lemma_members16_remove(v: Seq<u16>, k: int)
    requires
        sorted16(v),
        0 <= k < v.len(),
    ensures
        members16(v.remove(k)) == members16(v).remove(v[k] as int),
{
    let w = v.remove(k);
    let x = v[k] as int;
    assert forall|y: int| members16(w).contains(y) <==> members16(v).remove(x).contains(y) by {
        if members16(w).contains(y) {
            let i = choose|i: int| 0 <= i < w.len() && w[i] as int == y;
            if i < k {
                assert(v[i] as int == y);
                assert(v[i] < v[k]);
            } else {
                assert(v[i + 1] as int == y);
                assert(v[k] < v[i + 1]);
            }
        }
        if members16(v).remove(x).contains(y) {
            let i = choose|i: int| 0 <= i < v.len() && v[i] as int == y;
            if i < k {
                assert(w[i] as int == y);
            } else {
                assert(w[i - 1] as int == y);
            }
        }
    }
    assert(members16(w) =~= members16(v).remove(x));
}

/// Appending an element to a sequence inserts it into the set of members.
pub proof fn lemma_members16_push(v: Seq<u16>, x: u16)
    ensures
        members16(v.push(x)) == members16(v).insert(x as int),
{
    assert(v.push(x) =~= v.insert(v.len() as int, x));
    lemma_members16_insert(v, v.len() as int, x);
}

/// A value that lies between two neighbours of a sorted sequence is no member.
pub proof fn lemma_members16_gap(v: Seq<u16>, k: int, y: int)
    requires
        sorted16(v),
        0 <= k <= v.len(),
        k > 0 ==> v[k - 1] < y,
        k < v.len() ==> y < v[k],
    ensures
        !members16(v).contains(y),
{
    if members16(v).contains(y) {
        let i = choose|i: int| 0 <= i < v.len() && v[i] as int == y;
        if i < k - 1 {
            assert(v[i] < v[k - 1]);
        } else if i > k {
            assert(v[k] < v[i]);
        }
    }
}

/// The members of the first `i + 1` elements are those of the first `i`
/// and element `i`.
pub proof fn lemma_members16_take(v: Seq<u16>, i: int)
    requires
        0 <= i < v.len(),
    ensures
        members16(v.take(i + 1)) == members16(v.take(i)).insert(v[i] as int),
{
    assert(v.take(i + 1) =~= v.take(i).push(v[i]));
    lemma_members16_push(v.take(i), v[i]);
}

/// In a sorted sequence, element `k` begins a run where it is the first
/// element or does not follow its predecessor directly; and no run begins
/// between two neighbours.
pub proof fn lemma_run_starts16(v: Seq<u16>, k: int)
    requires
        sorted16(v),
        0 <= k < v.len(),
    ensures
        run_starts(members16(v)).contains(v[k] as int) <==> (k == 0 || v[k - 1] + 1 < v[k]),
        runs(members16(v), v[k] as int) == if k == 0 { 0 } else { runs(members16(v), v[k - 1] + 1) },
{
    let s = members16(v);
    let x = v[k] as int;
    assert(s.contains(x));
    if k == 0 {
        lemma_members16_gap(v, 0, x - 1);
        assert forall|y: int| 0 <= y < x implies !run_starts(s).contains(y) by {
            lemma_members16_gap(v, 0, y);
        }
        lemma_count_none(run_starts(s), 0, x);
    } else {
        assert(v[k - 1] < v[k]);
        if v[k - 1] + 1 < v[k] {
            lemma_members16_gap(v, k, x - 1);
        } else {
            assert(s.contains(v[k - 1] as int));
        }
        assert forall|y: int| v[k - 1] + 1 <= y < x implies !run_starts(s).contains(y) by {
            lemma_members16_gap(v, k, y);
        }
        lemma_count_none(run_starts(s), v[k - 1] + 1, x);
    }
}

/// Behind the last element of a sorted sequence no run begins.
pub proof fn lemma_run_starts16_end(v: Seq<u16>)
    requires
        sorted16(v),
    ensures
        runs(members16(v), 65536) == if v.len() == 0 { 0 } else { runs(members16(v), v[v.len() - 1] + 1) },
{
    let s = members16(v);
    let n = v.len() as int;
    let from = if n == 0 { 0 } else { v[n - 1] + 1 };
    assert forall|y: int| from <= y < 65536 implies !run_starts(s).contains(y) by {
        lemma_members16_gap(v, n, y);
    }
    lemma_count_none(run_starts(s), from, 65536);
}

/// Each 32-bit value is smaller than the next.
pub open spec fn sorted32(v: Seq<u32>) -> bool {
    forall|i: int, j: int| 0 <= i < j < v.len() ==> v[i] < v[j]
}

/// The members of a sequence of 32-bit values, as a set of integers.
pub open spec fn members32(v: Seq<u32>) -> Set<int> {
    Set::new(|x: int| exists|i: int| 0 <= i < v.len() && v[i] as int == x)
}

/// Appending an element to a sequence inserts it into the set of members.
pub proof fn lemma_members32_push(v: Seq<u32>, x: u32)
    ensures
        members32(v.push(x)) == members32(v).insert(x as int),
{
    let w = v.push(x);
    assert forall|y: int| members32(w).contains(y) <==> members32(v).insert(x as int).contains(y) by {
        if members32(w).contains(y) {
            let i = choose|i: int| 0 <= i < w.len() && w[i] as int == y;
            if i < v.len() {
                assert(v[i] as int == y);
            }
        }
        if members32(v).contains(y) {
            let i = choose|i: int| 0 <= i < v.len() && v[i] as int == y;
            assert(w[i] as int == y);
        }
        if y == x as int {
            assert(w[v.len() as int] as int == y);
        }
    }
    assert(members32(w) =~= members32(v).insert(x as int));
}

/// The members of the first `i + 1` elements are those of the first `i`
/// and element `i`.
pub proof fn lemma_members32_take(v: Seq<u32>, i: int)
    requires
        0 <= i < v.len(),
    ensures
        members32(v.take(i + 1)) == members32(v.take(i)).insert(v[i] as int),
{
    assert(v.take(i + 1) =~= v.take(i).push(v[i]));
    lemma_members32_push(v.take(i), v[i]);
}

/// In a sorted sequence of 32-bit values, the count of its members below
/// `x` is the number of elements smaller than `x`.
pub proof fn lemma_count_members32(v: Seq<u32>, k: int, x: int)
    requires
        sorted32(v),
        0 <= k <= v.len(),
        k > 0 ==> v[k - 1] < x,
        k < v.len() ==> x <= v[k],
    ensures
        count(members32(v), x) == k,
{
    let w = Seq::new(v.len(), |i: int| v[i] as int);
    assert(increasing(w));
    lemma_count_members(w, k, x);
    assert forall|y: int| members(w).contains(y) <==> members32(v).contains(y) by {
        if members(w).contains(y) {
            let i = choose|i: int| 0 <= i < w.len() && w[i] == y;
            assert(v[i] as int == y);
        }
        if members32(v).contains(y) {
            let i = choose|i: int| 0 <= i < v.len() && v[i] as int == y;
            assert(w[i] == y);
        }
    }
    assert(members(w) =~= members32(v));
}

} // verus!

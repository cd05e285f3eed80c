//! What holds of every block and every map, whatever its encoding: the
//! laws that tie rank to select, one encoding to another, and the
//! operations of set algebra to each other.

use vstd::prelude::*;
use crate::bit_vec::BitVec;
use crate::block::Block;
use crate::counting::{
    count, count_absent, is_select0, is_select1, lemma_count_absent_strict, lemma_count_bounds,
    lemma_count_difference, lemma_count_members32, lemma_count_strict, lemma_count_union_intersect,
    lemma_select0_unique, lemma_select1_unique, members32, sorted32, within,
};
use crate::dict::{BitDict, Rank};
use crate::ops::Op;
use crate::rank_select::{set_select0, set_select1};

verus! {

/// Every ordinal below the number of values has a select answer, and the
/// rank of that answer is the ordinal.
pub proof fn lemma_select1_exists(s: Set<int>, c: int, n: int) -> (p: int)
    requires
        0 <= c < count(s, n),
    ensures
        0 <= p < n,
        is_select1(s, c, p),
        count(s, p) == c,
    decreases n,
{
    if count(s, n - 1) > c {
        lemma_select1_exists(s, c, n - 1)
    } else {
        n - 1
    }
}

/// Every ordinal below the number of missing values has a select answer
/// among the missing values, and the rank of that answer is the ordinal.
pub proof fn lemma_select0_exists(s: Set<int>, c: int, n: int) -> (p: int)
    requires
        0 <= c < count_absent(s, n),
    ensures
        0 <= p < n,
        is_select0(s, c, p),
        count_absent(s, p) == c,
    decreases n,
{
    lemma_count_bounds(s, n);
    if n <= 0 {
        0
    } else if count_absent(s, n - 1) > c {
        lemma_select0_exists(s, c, n - 1)
    } else {
        n - 1
    }
}

/// Rank of select: where select of a block answers, the rank of the
/// answer is the ordinal that was asked for; and it answers for every
/// ordinal below the weight of the block.
pub proof fn lemma_rank_of_select(b: Block, c: u16, r: Option<u16>)
    requires
        b.wf(),
        set_select1(
            b@,
            65536,
            c as int,
            match r {
                Some(p) => Some(p as int),
                None => None,
            },
        ),
    ensures
        r is Some <==> c < count(b@, 65536),
        r matches Some(p) ==> count(b@, p as int) == c,
{
    if let Some(p) = r {
        lemma_count_strict(b@, p as int, 65536);
    }
}

/// The two ranks of a position in a block add up to the position.
pub proof fn lemma_ranks_add_up(b: Block, i: u16)
    requires
        b.wf(),
    ensures
        count(b@, i as int) + count_absent(b@, i as int) == i,
{
}

/// The two ranks of a position in a map add up to the position.
pub proof fn lemma_map_ranks_add_up(m: BitVec, i: u32)
    requires
        m.wf(),
    ensures
        count(m@, i as int) + count_absent(m@, i as int) == i,
{
}

/// The two ranks of a position add up to the position, in every
/// dictionary of bits.
pub proof fn lemma_dict_ranks_add_up<T, D: BitDict<T>>(d: &D, i: T, r0: D::Count, r1: D::Count)
    requires
        d.rank_ready(),
        d.rank0_spec(i, r0),
        d.rank1_spec(i, r1),
    ensures
        D::number(r0) + D::number(r1) == D::position(i),
{
    d.lemma_ranks_add_up(i, r0, r1);
}

/// A block that was put into another encoding and back holds the values
/// that it held, and as many.
pub proof fn lemma_round_trip(a: Block, b: Block, c: Block)
    requires
        a.wf(),
        b.wf(),
        c.wf(),
        b@ == a@,
        c@ == b@,
        c.encoding() == a.encoding(),
    ensures
        c@ == a@,
        c.cached() == a.cached(),
        b.cached() == a.cached(),
{
    a.lemma_wf();
    b.lemma_wf();
    c.lemma_wf();
}

/// A select query on a set has one answer.
pub proof fn lemma_select1_determined(s: Set<int>, n: int, c: int, r1: Option<int>, r2: Option<int>)
    requires
        within(s, n),
        set_select1(s, n, c, r1),
        set_select1(s, n, c, r2),
    ensures
        r1 == r2,
{
    match (r1, r2) {
        (Some(p), Some(q)) => {
            lemma_select1_unique(s, c, p, q);
        },
        (Some(p), None) => {
            lemma_count_strict(s, p, n);
        },
        (None, Some(q)) => {
            lemma_count_strict(s, q, n);
        },
        (None, None) => {},
    }
}

/// A select query for the values that a set lacks below `n` has one answer.
pub proof fn lemma_select0_determined(s: Set<int>, n: int, c: int, r1: Option<int>, r2: Option<int>)
    requires
        r1 matches Some(p) ==> p < n,
        r2 matches Some(q) ==> q < n,
        set_select0(s, n, c, r1),
        set_select0(s, n, c, r2),
    ensures
        r1 == r2,
{
    match (r1, r2) {
        (Some(p), Some(q)) => {
            lemma_select0_unique(s, c, p, q);
        },
        (Some(p), None) => {
            lemma_count_absent_strict(s, p, n);
        },
        (None, Some(q)) => {
            lemma_count_absent_strict(s, q, n);
        },
        (None, None) => {},
    }
}

/// Two blocks that hold the same values, in whatever encodings, have the
/// same weight, the same ranks at every position and the same answers to
/// every select query.
pub proof fn lemma_encoding_independent(a: Block, b: Block)
    requires
        a.wf(),
        b.wf(),
        a@ == b@,
    ensures
        a.cached() == b.cached(),
        forall|i: int| count(a@, i) == count(b@, i),
        forall|i: int| count_absent(a@, i) == count_absent(b@, i),
        forall|c: int, r1: Option<int>, r2: Option<int>|
            set_select1(a@, 65536, c, r1) && set_select1(b@, 65536, c, r2) ==> r1 == r2,
        forall|c: int, r1: Option<int>, r2: Option<int>|
            (r1 matches Some(p) ==> p < 65536) && (r2 matches Some(q) ==> q < 65536) && set_select0(a@, 65536, c, r1)
                && set_select0(b@, 65536, c, r2) ==> r1 == r2,
{
    a.lemma_wf();
    b.lemma_wf();
    assert forall|c: int, r1: Option<int>, r2: Option<int>|
        set_select1(a@, 65536, c, r1) && set_select1(b@, 65536, c, r2) implies r1 == r2 by {
        lemma_select1_determined(a@, 65536, c, r1, r2);
    }
    assert forall|c: int, r1: Option<int>, r2: Option<int>|
        (r1 matches Some(p) ==> p < 65536) && (r2 matches Some(q) ==> q < 65536) && set_select0(a@, 65536, c, r1)
            && set_select0(b@, 65536, c, r2) implies r1 == r2 by {
        lemma_select0_determined(a@, 65536, c, r1, r2);
    }
}

/// Union and intersection of maps do not depend on the order of the two maps,
/// and neither does the symmetric difference.
pub proof fn lemma_commutative(a: BitVec, b: BitVec)
    ensures
        Op::Or.apply(a@, b@) == Op::Or.apply(b@, a@),
        Op::And.apply(a@, b@) == Op::And.apply(b@, a@),
        Op::Xor.apply(a@, b@) == Op::Xor.apply(b@, a@),
        forall|n: int| count(a@.union(b@), n) == count(b@.union(a@), n),
        forall|n: int| count(a@.intersect(b@), n) == count(b@.intersect(a@), n),
{
    assert(a@.union(b@) =~= b@.union(a@));
    assert(a@.intersect(b@) =~= b@.intersect(a@));
    assert(Op::Xor.apply(a@, b@) =~= Op::Xor.apply(b@, a@));
}

/// Union and intersection of maps do not depend on how three maps are
/// grouped, and neither does the symmetric difference.
pub proof fn lemma_associative(a: BitVec, b: BitVec, c: BitVec)
    ensures
        Op::Or.apply(Op::Or.apply(a@, b@), c@) == Op::Or.apply(a@, Op::Or.apply(b@, c@)),
        Op::And.apply(Op::And.apply(a@, b@), c@) == Op::And.apply(a@, Op::And.apply(b@, c@)),
        Op::Xor.apply(Op::Xor.apply(a@, b@), c@) == Op::Xor.apply(a@, Op::Xor.apply(b@, c@)),
{
    assert(a@.union(b@).union(c@) =~= a@.union(b@.union(c@)));
    assert(a@.intersect(b@).intersect(c@) =~= a@.intersect(b@.intersect(c@)));
    assert(Op::Xor.apply(Op::Xor.apply(a@, b@), c@) =~= Op::Xor.apply(a@, Op::Xor.apply(b@, c@)));
}

/// The union and the intersection of two maps have together as many
/// values as the two maps.
pub proof fn lemma_inclusion_exclusion(a: BitVec, b: BitVec)
    ensures
        forall|n: int| count(a@.union(b@), n) + count(a@.intersect(b@), n) == count(a@, n) + count(b@, n),
{
    assert forall|n: int| count(a@.union(b@), n) + count(a@.intersect(b@), n) == count(a@, n) + count(b@, n) by {
        lemma_count_union_intersect(a@, b@, n);
    }
}

/// What a map holds and another lacks, together with what both hold, is
/// what the first map holds.
pub proof fn lemma_difference_and_intersection(a: BitVec, b: BitVec)
    ensures
        Op::Or.apply(Op::AndNot.apply(a@, b@), Op::And.apply(a@, b@)) == a@,
        forall|n: int| count(a@.difference(b@), n) + count(a@.intersect(b@), n) == count(a@, n),
{
    assert(a@.difference(b@).union(a@.intersect(b@)) =~= a@);
    assert forall|n: int| count(a@.difference(b@), n) + count(a@.intersect(b@), n) == count(a@, n) by {
        lemma_count_difference(a@, b@, n);
    }
}

/// The symmetric difference of two maps is their union without their
/// intersection, and it has as many values as the union has more than the
/// intersection.
pub proof fn lemma_symmetric_difference(a: BitVec, b: BitVec)
    ensures
        Op::Xor.apply(a@, b@) == Op::AndNot.apply(Op::Or.apply(a@, b@), Op::And.apply(a@, b@)),
        forall|n: int|
            count(Op::Xor.apply(a@, b@), n) == count(a@.union(b@), n) - count(a@.intersect(b@), n),
{
    let x = Op::Xor.apply(a@, b@);
    let u = a@.union(b@);
    let i = a@.intersect(b@);
    assert(x =~= u.difference(i));
    assert(u.intersect(i) =~= i);
    assert forall|n: int| count(x, n) == count(u, n) - count(i, n) by {
        lemma_count_difference(u, i, n);
    }
}

/// Putting in a value that is there, or taking out one that is not,
/// leaves the set and every count as they are.
pub proof fn lemma_idempotent(s: Set<int>, v: int)
    requires
        0 <= v,
    ensures
        s.contains(v) ==> s.insert(v) == s,
        !s.contains(v) ==> s.remove(v) == s,
        forall|n: int| s.contains(v) ==> count(s.insert(v), n) == count(s, n),
        forall|n: int| !s.contains(v) ==> count(s.remove(v), n) == count(s, n),
{
    if s.contains(v) {
        assert(s.insert(v) =~= s);
    } else {
        assert(s.remove(v) =~= s);
    }
}

/// The values of a set in increasing order are one sequence: two sorted
/// sequences with the same members are equal.
pub proof fn lemma_bits_determined(v: Seq<u32>, w: Seq<u32>)
    requires
        sorted32(v),
        sorted32(w),
        members32(v) == members32(w),
    ensures
        v == w,
{
    let m = members32(v);
    lemma_count_members32(v, v.len() as int, 0x1_0000_0000);
    lemma_count_members32(w, w.len() as int, 0x1_0000_0000);
    assert forall|i: int| 0 <= i < v.len() implies v[i] == w[i] by {
        let x = v[i] as int;
        assert(m.contains(x));
        let j = choose|j: int| 0 <= j < w.len() && w[j] as int == x;
        if i > 0 {
            assert(v[i - 1] < v[i]);
        }
        if j > 0 {
            assert(w[j - 1] < w[j]);
        }
        lemma_count_members32(v, i, x);
        lemma_count_members32(w, j, x);
    }
    assert(v =~= w);
}

} // verus!

//! The four operations of set algebra, and how two sorted vectors are
//! combined under each of them.

use vstd::prelude::*;
use crate::counting::{lemma_members16_gap, lemma_members16_push, members16, sorted16};

verus! {

/// An operation of set algebra on two sets.
#[derive(Clone, Copy, PartialEq, Eq, Debug, Structural)]
pub enum Op {
    /// What both sets hold.
    And,
    /// What either set holds.
    Or,
    /// What the first set holds and the second lacks.
    AndNot,
    /// What exactly one of the two sets holds.
    Xor,
}

impl Op {
    /// The result of the operation on the sets `a` and `b`.
    pub open spec fn apply(self, a: Set<int>, b: Set<int>) -> Set<int> {
        match self {
            Op::And => a.intersect(b),
            Op::Or => a.union(b),
            Op::AndNot => a.difference(b),
            Op::Xor => a.difference(b).union(b.difference(a)),
        }
    }

    /// Whether the result holds a value, given whether the first set holds
    /// it and whether the second one does.
    pub open spec fn spec_keeps(self, in_a: bool, in_b: bool) -> bool {
        match self {
            Op::And => in_a && in_b,
            Op::Or => in_a || in_b,
            Op::AndNot => in_a && !in_b,
            Op::Xor => in_a != in_b,
        }
    }

    /// Whether the result holds a value, given whether the first set holds
    /// it and whether the second one does.
    #[verifier::when_used_as_spec(spec_keeps)]
    pub fn keeps(self, in_a: bool, in_b: bool) -> (r: bool)
        ensures
            r == self.spec_keeps(in_a, in_b),
    {
        match self {
            Op::And => in_a && in_b,
            Op::Or => in_a || in_b,
            Op::AndNot => in_a && !in_b,
            Op::Xor => in_a != in_b,
        }
    }

    /// Membership in the result is decided value by value.
    pub proof fn lemma_apply(self, a: Set<int>, b: Set<int>)
        ensures
            forall|y: int| #[trigger] self.apply(a, b).contains(y) <==> self.spec_keeps(a.contains(y), b.contains(y)),
    {
    }

    /// A set that holds, value by value, what the operation keeps is the
    /// result of the operation.
    pub proof fn lemma_apply_is(self, a: Set<int>, b: Set<int>, r: Set<int>)
        requires
            forall|y: int| r.contains(y) <==> self.spec_keeps(a.contains(y), b.contains(y)),
        ensures
            r == self.apply(a, b),
    {
        assert(r =~= self.apply(a, b));
    }
}

/// The values below the two fronts `x` and `y`, where a missing front
/// stands for the end of its vector.
spec fn passed(v: int, x: Option<u16>, y: Option<u16>) -> bool {
    &&& x matches Some(a) ==> v < a
    &&& y matches Some(b) ==> v < b
}

/// The element at `i`, or nothing behind the last element.
spec fn front(v: Seq<u16>, i: int) -> Option<u16> {
    if 0 <= i < v.len() {
        Some(v[i])
    } else {
        None
    }
}

/// Combines two sorted vectors in one pass over both, in increasing order
/// of their values. The result is sorted and holds what `op` keeps.
pub fn merge(a: &Vec<u16>, b: &Vec<u16>, op: Op) -> (out: Vec<u16>)
    requires
        sorted16(a@),
        sorted16(b@),
    ensures
        sorted16(out@),
        members16(out@) == op.apply(members16(a@), members16(b@)),
{
    let n = a.len();
    let m = b.len();
    let mut out: Vec<u16> = Vec::new();
    let mut i: usize = 0;
    let mut j: usize = 0;
    let ghost sa = members16(a@);
    let ghost sb = members16(b@);
    while i < n || j < m
        invariant
            n == a.len(),
            m == b.len(),
            sa == members16(a@),
            sb == members16(b@),
            sorted16(a@),
            sorted16(b@),
            i <= n,
            j <= m,
            sorted16(out@),
            forall|k: int| 0 <= k < i && j < m ==> a[k] < b[j as int],
            forall|k: int| 0 <= k < j && i < n ==> b[k] < a[i as int],
            forall|k: int| 0 <= k < out.len() ==> passed(out[k] as int, front(a@, i as int), front(b@, j as int)),
            forall|v: int|
                members16(out@).contains(v) <==> (passed(v, front(a@, i as int), front(b@, j as int)) && op.spec_keeps(
                    sa.contains(v),
                    sb.contains(v),
                )),
        decreases (n - i) + (m - j),
    {
        let ghost old_out = out@;
        let ghost fa = front(a@, i as int);
        let ghost fb = front(b@, j as int);
        let take_a: bool = j >= m || (i < n && a[i] <= b[j]);
        let take_b: bool = i >= n || (j < m && b[j] <= a[i]);
        let x: u16 = if take_a { a[i] } else { b[j] };
        let keep: bool = op.keeps(take_a, take_b);
        proof {
            // `x` is the smallest value not yet passed; it lies in `a`
            // where `take_a` holds, and in `b` where `take_b` holds.
            if take_a {
                assert(sa.contains(x as int));
            } else {
                lemma_members16_gap(a@, i as int, x as int);
            }
            if take_b {
                assert(sb.contains(x as int));
            } else {
                lemma_members16_gap(b@, j as int, x as int);
            }
            if i + 1 < n {
                assert(a[i as int] < a[i + 1]);
            }
            if j + 1 < m {
                assert(b[j as int] < b[j + 1]);
            }
        }
        if keep {
            proof {
                lemma_members16_push(out@, x);
                let grown = out@.push(x);
                assert(sorted16(grown)) by {
                    assert forall|p: int, q: int| 0 <= p < q < grown.len() implies grown[p] < grown[q] by {
                        if q < out.len() {
                            assert(out[p] < out[q]);
                        } else {
                            assert(passed(out[p] as int, fa, fb));
                        }
                    }
                }
            }
            out.push(x);
        }
        let ghost i0 = i;
        let ghost j0 = j;
        if take_a {
            i += 1;
        }
        if take_b {
            j += 1;
        }
        proof {
            let na = front(a@, i as int);
            let nb = front(b@, j as int);
            assert forall|v: int|
                members16(out@).contains(v) <==> (passed(v, na, nb) && op.spec_keeps(
                    sa.contains(v),
                    sb.contains(v),
                )) by {
                if v < x {
                    assert(passed(v, fa, fb));
                    assert(passed(v, na, nb));
                } else if v == x {
                    assert(!passed(v, fa, fb));
                    assert(passed(v, na, nb));
                } else {
                    assert(!passed(v, fa, fb));
                    if passed(v, na, nb) {
                        lemma_members16_gap(a@, i as int, v);
                        lemma_members16_gap(b@, j as int, v);
                    }
                }
            }
            assert forall|k: int| 0 <= k < out.len() implies passed(out[k] as int, na, nb) by {
                if k < old_out.len() {
                    assert(passed(old_out[k] as int, fa, fb));
                }
            }
        }
    }
    proof {
        op.lemma_apply_is(sa, sb, members16(out@));
    }
    out
}

} // verus!

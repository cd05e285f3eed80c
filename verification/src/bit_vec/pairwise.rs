//! Set algebra on two maps: the entries of both are walked in the order of
//! their keys, and the blocks under a key that both maps have are combined.

use vstd::prelude::*;
use crate::bit_vec::{
    encoding_under, entries_ok, has_key, lemma_absent_key, lemma_elsewhere_insert, lemma_entry_found,
    lemma_entry_insert, lemma_key_missing, lemma_lookup, map_members, with_block, BitVec, Entry,
};
use crate::block::{Block, Encoding};
use crate::counting::lemma_count_zero;
use crate::ops::Op;
use crate::thunk::Thunk;

verus! {

/// The key `k` lies below the two fronts `x` and `y`, where a missing
/// front stands for the end of its map.
spec fn passed(k: int, x: Option<u16>, y: Option<u16>) -> bool {
    &&& x matches Some(a) ==> k < a
    &&& y matches Some(b) ==> k < b
}

/// The key of the entry at `i`, or nothing behind the last entry.
spec fn front(e: Seq<Entry>, i: int) -> Option<u16> {
    if 0 <= i < e.len() {
        Some(e[i].key)
    } else {
        None
    }
}

/// The values of a block that may be missing.
spec fn held(b: Option<Block>) -> Set<int> {
    match b {
        Some(c) => c@,
        None => Set::<int>::empty(),
    }
}

/// The encoding of a block that may be missing.
spec fn shape(b: Option<Block>) -> Option<Encoding> {
    match b {
        Some(c) => Some(c.encoding()),
        None => None,
    }
}

impl BitVec {
    /// The set that `op` makes of this set and `that`. The entries of both
    /// maps are walked once, in the order of their keys. Under a key that
    /// both maps have, the two blocks are combined, and the result is kept
    /// unless it is empty; under a key that one map has, its block is
    /// copied as it is, in its encoding, where `op` keeps what only that
    /// map holds.
    pub fn combine(&self, that: &BitVec, op: Op) -> (r: BitVec)
        requires
            self.wf(),
            that.wf(),
        ensures
            r.wf(),
            r@ == op.apply(self@, that@),
            op.spec_keeps(true, false) ==> r.keeps_blocks(*self, *that),
            op.spec_keeps(false, true) ==> r.keeps_blocks(*that, *self),
    {
        let n = self.blocks.len();
        let m = that.blocks.len();
        let mut out: Vec<Entry> = Vec::new();
        let mut i: usize = 0;
        let mut j: usize = 0;
        let ghost ea = self.entries();
        let ghost eb = that.entries();
        let ghost sa = self@;
        let ghost sb = that@;
        proof {
            assert(map_members(out@) =~= Set::<int>::empty());
        }
        while i < n || j < m
            invariant
                ea == self.entries(),
                eb == that.entries(),
                sa == map_members(ea),
                sb == map_members(eb),
                n == ea.len(),
                m == eb.len(),
                entries_ok(ea),
                entries_ok(eb),
                i <= n,
                j <= m,
                entries_ok(out@),
                forall|k: int| 0 <= k < i && j < m ==> (#[trigger] ea[k]).key < eb[j as int].key,
                forall|k: int| 0 <= k < j && i < n ==> (#[trigger] eb[k]).key < ea[i as int].key,
                forall|k: int|
                    0 <= k < out.len() ==> passed((#[trigger] out[k]).key as int, front(ea, i as int), front(eb, j as int)),
                forall|v: int|
                    map_members(out@).contains(v) <==> (0 <= v && passed(
                        v / 65536,
                        front(ea, i as int),
                        front(eb, j as int),
                    ) && op.spec_keeps(sa.contains(v), sb.contains(v))),
                forall|q: u16|
                    passed(q as int, front(ea, i as int), front(eb, j as int)) && has_key(ea, q) && !has_key(eb, q)
                        && op.spec_keeps(true, false) ==> #[trigger] encoding_under(out@, q) == encoding_under(ea, q),
                forall|q: u16|
                    passed(q as int, front(ea, i as int), front(eb, j as int)) && has_key(eb, q) && !has_key(ea, q)
                        && op.spec_keeps(false, true) ==> #[trigger] encoding_under(out@, q) == encoding_under(eb, q),
            decreases (n - i) + (m - j),
        {
            let ghost old_out = out@;
            let ghost fa = front(ea, i as int);
            let ghost fb = front(eb, j as int);
            let take_a: bool = j >= m || (i < n && self.blocks[i].key <= that.blocks[j].key);
            let take_b: bool = i >= n || (j < m && that.blocks[j].key <= self.blocks[i].key);
            let key: u16 = if take_a { self.blocks[i].key } else { that.blocks[j].key };
            let made: Option<Block> = if take_a && take_b {
                let deferred = Thunk::defer(self.blocks[i].block.clone(), that.blocks[j].block.clone(), op);
                let c = deferred.into_block();
                if c.is_empty() {
                    None
                } else {
                    Some(c)
                }
            } else if take_a {
                if op.keeps(true, false) {
                    Some(self.blocks[i].block.clone())
                } else {
                    None
                }
            } else {
                if op.keeps(false, true) {
                    Some(that.blocks[j].block.clone())
                } else {
                    None
                }
            };
            let ghost content: Set<int> = held(made);
            let ghost form: Option<Encoding> = shape(made);
            proof {
                if take_a && !take_b && op.spec_keeps(true, false) {
                    assert(form == Some(ea[i as int].block.encoding()));
                }
                if take_b && !take_a && op.spec_keeps(false, true) {
                    assert(form == Some(eb[j as int].block.encoding()));
                }
            }
            proof {
                // under `key`, `content` holds what `op` keeps
                assert forall|v: int| 0 <= v && v / 65536 == key implies (content.contains(v % 65536) <==> op.spec_keeps(
                    sa.contains(v),
                    sb.contains(v),
                )) by {
                    if take_a {
                        lemma_lookup(ea, i as int, v);
                    } else {
                        lemma_absent_key(ea, i as int, v);
                    }
                    if take_b {
                        lemma_lookup(eb, j as int, v);
                    } else {
                        lemma_absent_key(eb, j as int, v);
                    }
                    if take_a && take_b {
                        let a = ea[i as int].block;
                        let b = eb[j as int].block;
                        op.lemma_apply(a@, b@);
                        if made is None {
                            let c = op.apply(a@, b@);
                            assert(0 <= v % 65536 < 65536);
                            lemma_count_zero(c, 65536, v % 65536);
                        }
                    }
                }
                if take_a {
                    assert(ea[i as int].block.settled());
                }
                if take_b {
                    assert(eb[j as int].block.settled());
                }
                if i + 1 < n {
                    assert(ea[i as int].key < ea[i + 1].key);
                }
                if j + 1 < m {
                    assert(eb[j as int].key < eb[j + 1].key);
                }
            }
            match made {
                Some(c) => {
                    let x = Entry { key, block: c };
                    proof {
                        if out.len() > 0 {
                            assert(passed(out[out.len() - 1].key as int, fa, fb));
                        }
                        lemma_entry_insert(out@, out.len() as int, x);
                        assert(out@.push(x) =~= out@.insert(out.len() as int, x));
                        lemma_elsewhere_insert(out@, out.len() as int, x);
                    }
                    out.push(x);
                },
                None => {
                    proof {
                        assert forall|v: int| map_members(out@).contains(v) <==> with_block(
                            map_members(out@),
                            key as int,
                            content,
                        ).contains(v) by {
                            if 0 <= v && v / 65536 == key {
                                assert(!passed(v / 65536, fa, fb));
                            }
                        }
                        assert(map_members(out@) =~= with_block(map_members(out@), key as int, content));
                    }
                },
            }
            let ghost i0 = i;
            let ghost j0 = j;
            if take_a {
                i += 1;
            }
            if take_b {
                j += 1;
            }
            proof {
                let na = front(ea, i as int);
                let nb = front(eb, j as int);
                assert(map_members(out@) == with_block(map_members(old_out), key as int, content));
                assert forall|v: int|
                    map_members(out@).contains(v) <==> (0 <= v && passed(v / 65536, na, nb) && op.spec_keeps(
                        sa.contains(v),
                        sb.contains(v),
                    )) by {
                    if 0 <= v {
                        let kv = v / 65536;
                        if kv < key {
                            assert(passed(kv, fa, fb));
                            assert(passed(kv, na, nb));
                        } else if kv == key {
                            assert(passed(kv, na, nb));
                        } else {
                            assert(!passed(kv, fa, fb));
                            if passed(kv, na, nb) {
                                lemma_absent_key(ea, i as int, v);
                                lemma_absent_key(eb, j as int, v);
                            }
                        }
                    }
                }
                assert forall|k: int| 0 <= k < out.len() implies passed((#[trigger] out[k]).key as int, na, nb) by {
                    if k < old_out.len() {
                        assert(passed(old_out[k].key as int, fa, fb));
                    }
                }
                // under the keys that were passed before, the blocks are those that were there
                assert forall|q: u16| q != key implies #[trigger] encoding_under(out@, q) == encoding_under(old_out, q) by {}
                assert(form is Some ==> encoding_under(out@, key) == form);
                assert forall|q: u16|
                    passed(q as int, na, nb) && has_key(ea, q) && !has_key(eb, q) && op.spec_keeps(
                        true,
                        false,
                    ) implies #[trigger] encoding_under(out@, q) == encoding_under(ea, q) by {
                    if q < key {
                        assert(passed(q as int, fa, fb));
                        assert(encoding_under(out@, q) == encoding_under(old_out, q));
                    } else if q == key {
                        if take_b {
                            assert(eb[j0 as int].key == key);
                        } else {
                            lemma_entry_found(ea, i0 as int);
                        }
                    } else {
                        lemma_key_missing(ea, i as int, q);
                    }
                }
                assert forall|q: u16|
                    passed(q as int, na, nb) && has_key(eb, q) && !has_key(ea, q) && op.spec_keeps(
                        false,
                        true,
                    ) implies #[trigger] encoding_under(out@, q) == encoding_under(eb, q) by {
                    if q < key {
                        assert(passed(q as int, fa, fb));
                        assert(encoding_under(out@, q) == encoding_under(old_out, q));
                    } else if q == key {
                        if take_a {
                            assert(ea[i0 as int].key == key);
                        } else {
                            lemma_entry_found(eb, j0 as int);
                        }
                    } else {
                        lemma_key_missing(eb, j as int, q);
                    }
                }
            }
        }
        let r = BitVec { blocks: out };
        proof {
            op.lemma_apply(sa, sb);
            assert forall|v: int| r@.contains(v) <==> op.apply(sa, sb).contains(v) by {
                if v < 0 {
                    assert(!sa.contains(v) && !sb.contains(v));
                }
            }
            assert(r@ =~= op.apply(sa, sb));
        }
        r
    }

    /// The values that both sets hold.
    pub fn and(&self, that: &BitVec) -> (r: BitVec)
        requires
            self.wf(),
            that.wf(),
        ensures
            r.wf(),
            r@ == self@.intersect(that@),
    {
        self.combine(that, Op::And)
    }

    /// The values that either set holds.
    pub fn or(&self, that: &BitVec) -> (r: BitVec)
        requires
            self.wf(),
            that.wf(),
        ensures
            r.wf(),
            r@ == self@.union(that@),
            r.keeps_blocks(*self, *that),
            r.keeps_blocks(*that, *self),
    {
        self.combine(that, Op::Or)
    }

    /// The values that this set holds and `that` lacks.
    pub fn and_not(&self, that: &BitVec) -> (r: BitVec)
        requires
            self.wf(),
            that.wf(),
        ensures
            r.wf(),
            r@ == self@.difference(that@),
            r.keeps_blocks(*self, *that),
    {
        self.combine(that, Op::AndNot)
    }

    /// The values that exactly one of the two sets holds.
    pub fn xor(&self, that: &BitVec) -> (r: BitVec)
        requires
            self.wf(),
            that.wf(),
        ensures
            r.wf(),
            r@ == Op::Xor.apply(self@, that@),
            r.keeps_blocks(*self, *that),
            r.keeps_blocks(*that, *self),
    {
        self.combine(that, Op::Xor)
    }

    /// Keeps the values that `that` holds too. A key that `that` lacks
    /// leaves the map, and so does a key whose block becomes empty.
    pub fn intersection_with(&mut self, that: &BitVec)
        requires
            old(self).wf(),
            that.wf(),
        ensures
            final(self).wf(),
            final(self)@ == old(self)@.intersect(that@),
    {
        let r = self.combine(that, Op::And);
        *self = r;
    }

    /// Adds the values that `that` holds. A key that this map lacks gets a
    /// copy of the block of `that`.
    pub fn union_with(&mut self, that: &BitVec)
        requires
            old(self).wf(),
            that.wf(),
        ensures
            final(self).wf(),
            final(self)@ == old(self)@.union(that@),
            final(self).keeps_blocks(*old(self), *that),
            final(self).keeps_blocks(*that, *old(self)),
    {
        let r = self.combine(that, Op::Or);
        *self = r;
    }

    /// Drops the values that `that` holds. A key that `that` lacks keeps
    /// its block as it is.
    pub fn difference_with(&mut self, that: &BitVec)
        requires
            old(self).wf(),
            that.wf(),
        ensures
            final(self).wf(),
            final(self)@ == old(self)@.difference(that@),
            final(self).keeps_blocks(*old(self), *that),
    {
        let r = self.combine(that, Op::AndNot);
        *self = r;
    }

    /// Keeps the values that exactly one of the two sets holds.
    pub fn symmetric_difference_with(&mut self, that: &BitVec)
        requires
            old(self).wf(),
            that.wf(),
        ensures
            final(self).wf(),
            final(self)@ == Op::Xor.apply(old(self)@, that@),
            final(self).keeps_blocks(*old(self), *that),
            final(self).keeps_blocks(*that, *old(self)),
    {
        let r = self.combine(that, Op::Xor);
        *self = r;
    }
}

} // verus!

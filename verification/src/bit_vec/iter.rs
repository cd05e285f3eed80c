//! Walking the values of a map in increasing order.

use vstd::prelude::*;
use crate::bit_vec::{
    entries_ok, join, lemma_lookup, lemma_map_count_inside, weight_before, BitVec, Entry,
};
use crate::counting::{count, is_select1, lemma_count_strict};

verus! {

/// Where a walk over the entries of a map stands.
#[derive(Clone, Copy, Debug)]
pub enum Inner {
    /// Before the entry at `entry`, or behind the last entry.
    Move { entry: usize },
    /// Inside the entry at `entry`, whose key is `key`, with `bit` values
    /// of its block behind it.
    Seek { entry: usize, key: u16, bit: u32 },
}

impl Inner {
    /// The position fits the entries `e`.
    pub open spec fn wf(self, e: Seq<Entry>) -> bool {
        match self {
            Inner::Move { entry } => entry <= e.len(),
            Inner::Seek { entry, key, bit } => entry < e.len() && key == e[entry as int].key && bit <= count(
                e[entry as int].block@,
                65536,
            ),
        }
    }

    /// Number of values that lie behind the position.
    pub open spec fn behind(self, e: Seq<Entry>) -> int {
        match self {
            Inner::Move { entry } => weight_before(e, entry as int),
            Inner::Seek { entry, key, bit } => weight_before(e, entry as int) + bit,
        }
    }

    /// The position at the start of the map: inside the first entry, or
    /// behind the last one where the map is empty.
    pub fn new(map: &BitVec) -> (r: Inner)
        requires
            map.wf(),
        ensures
            r.wf(map.entries()),
            r.behind(map.entries()) == 0,
            map.entries().len() > 0 ==> r is Seek,
    {
        if map.blocks.len() > 0 {
            Inner::Seek { entry: 0, key: map.blocks[0].key, bit: 0 }
        } else {
            Inner::Move { entry: 0 }
        }
    }

    /// Enters the entry that the position stands before. A position inside
    /// an entry, or behind the last one, stays as it is.
    pub fn move_next(&mut self, map: &BitVec)
        requires
            map.wf(),
            old(self).wf(map.entries()),
        ensures
            final(self).wf(map.entries()),
            final(self).behind(map.entries()) == old(self).behind(map.entries()),
            match *old(self) {
                Inner::Move { entry } => if entry < map.entries().len() {
                    *final(self) == (Inner::Seek { entry, key: map.entries()[entry as int].key, bit: 0 })
                } else {
                    *final(self) == *old(self)
                },
                Inner::Seek { .. } => *final(self) == *old(self),
            },
    {
        match *self {
            Inner::Move { entry } => {
                if entry < map.blocks.len() {
                    *self = Inner::Seek { entry, key: map.blocks[entry].key, bit: 0 };
                }
            },
            Inner::Seek { .. } => {},
        }
    }

    /// Steps over the next value of the entry that the position is in, and
    /// returns it. Where the entry has no more values, the position moves
    /// behind the entry, and nothing is returned. A position between
    /// entries stays as it is.
    pub fn seek_next(&mut self, map: &BitVec) -> (r: Option<u32>)
        requires
            map.wf(),
            old(self).wf(map.entries()),
        ensures
            final(self).wf(map.entries()),
            match *old(self) {
                Inner::Move { .. } => r is None && *final(self) == *old(self),
                Inner::Seek { entry, key, bit } => if bit < count(map.entries()[entry as int].block@, 65536) {
                    &&& *final(self) == (Inner::Seek { entry, key, bit: (bit + 1) as u32 })
                    &&& r matches Some(v) && is_select1(map@, old(self).behind(map.entries()), v as int)
                } else {
                    &&& *final(self) == (Inner::Move { entry: (entry + 1) as usize })
                    &&& r is None
                },
            },
            final(self).behind(map.entries()) == old(self).behind(map.entries()) + if r is Some { 1int } else { 0 },
    {
        match *self {
            Inner::Move { .. } => None,
            Inner::Seek { entry, key, bit } => {
                let block = &map.blocks[entry].block;
                if bit < block.count_ones() {
                    match block.select1(bit as u16) {
                        Some(p) => {
                            proof {
                                let v = join(key, p);
                                assert(v / 65536 == key && v % 65536 == p);
                                lemma_lookup(map.entries(), entry as int, v);
                                lemma_map_count_inside(map.entries(), entry as int, p as int);
                            }
                            *self = Inner::Seek { entry, key, bit: bit + 1 };
                            Some(key as u32 * 65536 + p as u32)
                        },
                        None => {
                            proof {
                                assert(false);
                            }
                            None
                        },
                    }
                } else {
                    let n = map.blocks.len();
                    assert(entry < n);
                    *self = Inner::Move { entry: entry + 1 };
                    None
                }
            },
        }
    }
}

/// A walk over the values of a map, in increasing order. The map is not
/// changed by it, and a fresh walk starts at the smallest value again.
pub struct Iter<'a> {
    map: &'a BitVec,
    inner: Inner,
}

impl<'a> Iter<'a> {
    /// The map that is walked.
    pub closed spec fn map(&self) -> &'a BitVec {
        self.map
    }

    /// Where the walk stands.
    pub closed spec fn inner(&self) -> Inner {
        self.inner
    }

    /// The walk fits its map.
    pub open spec fn wf(&self) -> bool {
        self.map().wf() && self.inner().wf(self.map().entries())
    }

    /// Number of values that the walk has given.
    pub open spec fn given(&self) -> int {
        self.inner().behind(self.map().entries())
    }

    /// A walk over `map` that stands before its first entry and has given
    /// nothing yet.
    pub fn new(map: &'a BitVec) -> (r: Iter<'a>)
        requires
            map.wf(),
        ensures
            r.wf(),
            r.map() == map,
            r.inner() == (Inner::Move { entry: 0 }),
            r.given() == 0,
    {
        Iter { map, inner: Inner::Move { entry: 0 } }
    }

    /// Where the walk stands.
    pub fn state(&self) -> (r: Inner)
        ensures
            r == self.inner(),
    {
        self.inner
    }

    /// The next value: the one that has as many values of the map below it
    /// as the walk has given so far; or nothing, once the walk has given
    /// every value of the map.
    pub fn next(&mut self) -> (r: Option<u32>)
        requires
            old(self).wf(),
        ensures
            final(self).wf(),
            final(self).map() == old(self).map(),
            r is Some <==> old(self).given() < count(old(self).map()@, 0x1_0000_0000),
            r matches Some(v) ==> is_select1(old(self).map()@, old(self).given(), v as int),
            final(self).given() == old(self).given() + if r is Some { 1int } else { 0 },
    {
        let map = self.map;
        proof {
            map.lemma_wf();
            lemma_weights_grow(map.entries(), self.inner.behind(map.entries()), self.inner);
        }
        self.inner.move_next(map);
        let first = self.inner.seek_next(map);
        if first.is_some() {
            proof {
                lemma_count_strict(map@, first.unwrap() as int, 0x1_0000_0000);
            }
            return first;
        }
        // the entry is used up, or the walk stands behind the last entry
        self.inner.move_next(map);
        let second = self.inner.seek_next(map);
        proof {
            if let Some(v) = second {
                lemma_count_strict(map@, v as int, 0x1_0000_0000);
            }
        }
        second
    }
}

/// Behind the last entry lie all the values of the map; before an entry
/// and inside it lie fewer.
proof fn lemma_weights_grow(e: Seq<Entry>, n: int, at: Inner)
    requires
        entries_ok(e),
        at.wf(e),
        n == at.behind(e),
    ensures
        n <= weight_before(e, e.len() as int),
        (at matches Inner::Move { entry } && entry == e.len()) ==> n == weight_before(e, e.len() as int),
        (at matches Inner::Move { entry } && entry < e.len()) ==> n < weight_before(e, e.len() as int),
        (at matches Inner::Seek { entry, key, bit } && entry + 1 < e.len()) ==> n < weight_before(e, e.len() as int),
{
    let entry: int = match at {
        Inner::Move { entry } => entry as int,
        Inner::Seek { entry, key, bit } => entry as int,
    };
    if entry < e.len() {
        lemma_weight_mono(e, entry + 1, e.len() as int);
        assert(count(e[entry].block@, 65536) > 0);
        if entry + 1 < e.len() {
            lemma_weight_mono(e, entry + 2, e.len() as int);
            assert(count(e[entry + 1].block@, 65536) > 0);
        }
    }
}

/// The number of values in the first entries does not decrease with their number.
proof fn lemma_weight_mono(e: Seq<Entry>, i: int, j: int)
    requires
        0 <= i <= j,
    ensures
        weight_before(e, i) <= weight_before(e, j),
    decreases j - i,
{
    if i < j {
        lemma_weight_mono(e, i, j - 1);
    }
}

} // verus!

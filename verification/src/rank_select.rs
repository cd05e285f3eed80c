//! Rank, select and the dictionary of bits, for blocks and for maps.

use vstd::prelude::*;
use crate::bit_vec::BitVec;
use crate::block::Block;
use crate::counting::{count, count_absent, is_select0, is_select1};
use crate::dict::{Dict, Rank};
use crate::select::{Select0, Select1};

verus! {

/// What select on the values of `s`, which lie below `size`, returns for
/// the ordinal `c`.
pub open spec fn set_select1(s: Set<int>, size: int, c: int, r: Option<int>) -> bool {
    match r {
        Some(p) => is_select1(s, c, p),
        None => c >= count(s, size),
    }
}

/// What select on the values below `size` that `s` lacks returns for the
/// ordinal `c`.
pub open spec fn set_select0(s: Set<int>, size: int, c: int, r: Option<int>) -> bool {
    match r {
        Some(p) => is_select0(s, c, p),
        None => c >= count_absent(s, size),
    }
}

/// What rank and select of the bit `item` return on the set `s`.
pub open spec fn set_rank(s: Set<int>, item: bool, i: int) -> int {
    if item {
        count(s, i) as int
    } else {
        count_absent(s, i)
    }
}

impl Rank<u16> for Block {
    type Count = u32;

    open spec fn rank_ready(&self) -> bool {
        self.wf()
    }

    open spec fn rank1_spec(&self, i: u16, r: u32) -> bool {
        r == count(self@, i as int)
    }

    open spec fn rank0_spec(&self, i: u16, r: u32) -> bool {
        r == count_absent(self@, i as int)
    }

    open spec fn position(i: u16) -> int {
        i as int
    }

    open spec fn number(c: u32) -> int {
        c as int
    }

    proof fn lemma_ranks_add_up(&self, i: u16, r0: u32, r1: u32) {
    }

    fn rank1(&self, i: u16) -> (r: u32) {
        Block::rank1(self, i)
    }

    fn rank0(&self, i: u16) -> (r: u32) {
        Block::rank0(self, i)
    }
}

impl Select1<u16> for Block {
    type Index = u16;

    open spec fn select1_ready(&self) -> bool {
        self.wf()
    }

    open spec fn select1_spec(&self, c: u16, r: Option<u16>) -> bool {
        set_select1(
            self@,
            65536,
            c as int,
            match r {
                Some(p) => Some(p as int),
                None => None,
            },
        )
    }

    fn select1(&self, c: u16) -> (r: Option<u16>) {
        Block::select1(self, c)
    }
}

impl Select0<u16> for Block {
    type Index = u16;

    open spec fn select0_ready(&self) -> bool {
        self.wf()
    }

    open spec fn select0_spec(&self, c: u16, r: Option<u16>) -> bool {
        set_select0(
            self@,
            65536,
            c as int,
            match r {
                Some(p) => Some(p as int),
                None => None,
            },
        )
    }

    fn select0(&self, c: u16) -> (r: Option<u16>) {
        Block::select0(self, c)
    }
}

impl Dict<u16> for Block {
    type Item = bool;

    type Index = u16;

    type Count = u32;

    open spec fn dict_ready(&self) -> bool {
        self.wf()
    }

    open spec fn rank_spec(&self, item: &bool, i: u16, r: u32) -> bool {
        r == set_rank(self@, *item, i as int)
    }

    open spec fn select_spec(&self, item: &bool, c: u32, r: Option<u16>) -> bool {
        let p = match r {
            Some(p) => Some(p as int),
            None => None,
        };
        if *item {
            set_select1(self@, 65536, c as int, p)
        } else {
            set_select0(self@, 65536, c as int, p)
        }
    }

    fn rank(&self, item: &bool, i: u16) -> (r: u32) {
        if *item {
            Block::rank1(self, i)
        } else {
            Block::rank0(self, i)
        }
    }

    fn select(&self, item: &bool, c: u32) -> (r: Option<u16>) {
        if c >= 65536 {
            proof {
                crate::counting::lemma_count_bounds(self@, 65536);
            }
            return None;
        }
        if *item {
            Block::select1(self, c as u16)
        } else {
            Block::select0(self, c as u16)
        }
    }
}

impl Rank<u32> for BitVec {
    type Count = u32;

    open spec fn rank_ready(&self) -> bool {
        self.wf()
    }

    open spec fn rank1_spec(&self, i: u32, r: u32) -> bool {
        r == count(self@, i as int)
    }

    open spec fn rank0_spec(&self, i: u32, r: u32) -> bool {
        r == count_absent(self@, i as int)
    }

    open spec fn position(i: u32) -> int {
        i as int
    }

    open spec fn number(c: u32) -> int {
        c as int
    }

    proof fn lemma_ranks_add_up(&self, i: u32, r0: u32, r1: u32) {
    }

    fn rank1(&self, i: u32) -> (r: u32) {
        BitVec::rank1(self, i)
    }

    fn rank0(&self, i: u32) -> (r: u32) {
        BitVec::rank0(self, i)
    }
}

impl Select1<u32> for BitVec {
    type Index = u32;

    open spec fn select1_ready(&self) -> bool {
        self.wf()
    }

    open spec fn select1_spec(&self, c: u32, r: Option<u32>) -> bool {
        set_select1(
            self@,
            0x1_0000_0000,
            c as int,
            match r {
                Some(p) => Some(p as int),
                None => None,
            },
        )
    }

    fn select1(&self, c: u32) -> (r: Option<u32>) {
        BitVec::select1(self, c)
    }
}

impl Select0<u32> for BitVec {
    type Index = u32;

    open spec fn select0_ready(&self) -> bool {
        self.wf()
    }

    open spec fn select0_spec(&self, c: u32, r: Option<u32>) -> bool {
        set_select0(
            self@,
            0x1_0000_0000,
            c as int,
            match r {
                Some(p) => Some(p as int),
                None => None,
            },
        )
    }

    fn select0(&self, c: u32) -> (r: Option<u32>) {
        BitVec::select0(self, c)
    }
}

impl Dict<u32> for BitVec {
    type Item = bool;

    type Index = u32;

    type Count = u32;

    open spec fn dict_ready(&self) -> bool {
        self.wf()
    }

    open spec fn rank_spec(&self, item: &bool, i: u32, r: u32) -> bool {
        r == set_rank(self@, *item, i as int)
    }

    open spec fn select_spec(&self, item: &bool, c: u32, r: Option<u32>) -> bool {
        let p = match r {
            Some(p) => Some(p as int),
            None => None,
        };
        if *item {
            set_select1(self@, 0x1_0000_0000, c as int, p)
        } else {
            set_select0(self@, 0x1_0000_0000, c as int, p)
        }
    }

    fn rank(&self, item: &bool, i: u32) -> (r: u32) {
        if *item {
            BitVec::rank1(self, i)
        } else {
            BitVec::rank0(self, i)
        }
    }

    fn select(&self, item: &bool, c: u32) -> (r: Option<u32>) {
        if *item {
            BitVec::select1(self, c)
        } else {
            BitVec::select0(self, c)
        }
    }
}

/// The four queries of a dictionary of bits at one position: the two ranks
/// of `i`, which add up to `i`, and the two selects for the ordinal `i`.
pub fn probe<T: Copy, D: crate::dict::BitDict<T>>(d: &D, i: T) -> (r: (D::Count, D::Count, Option<T>, Option<T>))
    requires
        d.rank_ready(),
        d.select0_ready(),
        d.select1_ready(),
    ensures
        d.rank0_spec(i, r.0),
        d.rank1_spec(i, r.1),
        d.select0_spec(i, r.2),
        d.select1_spec(i, r.3),
        D::number(r.0) + D::number(r.1) == D::position(i),
{
    let r0 = d.rank0(i);
    let r1 = d.rank1(i);
    proof {
        d.lemma_ranks_add_up(i, r0, r1);
    }
    (r0, r1, d.select0(i), d.select1(i))
}

} // verus!

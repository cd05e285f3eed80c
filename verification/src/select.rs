//! Select as a capability: the position of the set, or clear, bit with a
//! given number of such bits below it.

use vstd::prelude::*;
use crate::counting::{is_select0, is_select1};
use crate::word;
use crate::word::{bits_of, ones};

verus! {

/// Select among the values that a container holds.
pub trait Select1<Count> {
    /// The type of a position.
    type Index;

    /// What the container must satisfy before it is asked.
    spec fn select1_ready(&self) -> bool;

    /// Whether `r` is the answer for the ordinal `c`.
    spec fn select1_spec(&self, c: Count, r: Option<Self::Index>) -> bool;

    /// The position of the value that has exactly `c` values below it, or
    /// nothing where there are no more than `c` values.
    fn select1(&self, c: Count) -> (r: Option<Self::Index>)
        requires
            self.select1_ready(),
        ensures
            self.select1_spec(c, r),
    ;
}

/// Select among the values that a container lacks.
pub trait Select0<Count> {
    /// The type of a position.
    type Index;

    /// What the container must satisfy before it is asked.
    spec fn select0_ready(&self) -> bool;

    /// Whether `r` is the answer for the ordinal `c`.
    spec fn select0_spec(&self, c: Count, r: Option<Self::Index>) -> bool;

    /// The position of the missing value that has exactly `c` missing
    /// values below it, or nothing where no more than `c` values are missing.
    fn select0(&self, c: Count) -> (r: Option<Self::Index>)
        requires
            self.select0_ready(),
        ensures
            self.select0_spec(c, r),
    ;
}

/// What select on the set bits of the word `x` returns for the ordinal `c`.
pub open spec fn word_select1(x: u64, c: int, r: Option<int>) -> bool {
    match r {
        Some(p) => p < 64 && is_select1(bits_of(x), c, p),
        None => c >= ones(x),
    }
}

/// What select on the clear bits of the word `x` returns for the ordinal `c`.
pub open spec fn word_select0(x: u64, c: int, r: Option<int>) -> bool {
    match r {
        Some(p) => p < 64 && is_select0(bits_of(x), c, p),
        None => c >= 64 - ones(x),
    }
}

/// An optional position as an optional integer.
pub open spec fn pos32(r: Option<u32>) -> Option<int> {
    match r {
        Some(p) => Some(p as int),
        None => None,
    }
}

impl Select1<u32> for u64 {
    type Index = u32;

    open spec fn select1_ready(&self) -> bool {
        true
    }

    open spec fn select1_spec(&self, c: u32, r: Option<u32>) -> bool {
        word_select1(*self, c as int, pos32(r))
    }

    fn select1(&self, c: u32) -> (r: Option<u32>) {
        word::select1(*self, c)
    }
}

impl Select0<u32> for u64 {
    type Index = u32;

    open spec fn select0_ready(&self) -> bool {
        true
    }

    open spec fn select0_spec(&self, c: u32, r: Option<u32>) -> bool {
        word_select0(*self, c as int, pos32(r))
    }

    fn select0(&self, c: u32) -> (r: Option<u32>) {
        word::select0(*self, c)
    }
}

impl Select1<u8> for u64 {
    type Index = u8;

    open spec fn select1_ready(&self) -> bool {
        true
    }

    open spec fn select1_spec(&self, c: u8, r: Option<u8>) -> bool {
        word_select1(
            *self,
            c as int,
            match r {
                Some(p) => Some(p as int),
                None => None,
            },
        )
    }

    fn select1(&self, c: u8) -> (r: Option<u8>) {
        match word::select1(*self, c as u32) {
            Some(p) => Some(p as u8),
            None => None,
        }
    }
}

impl Select0<u8> for u64 {
    type Index = u8;

    open spec fn select0_ready(&self) -> bool {
        true
    }

    open spec fn select0_spec(&self, c: u8, r: Option<u8>) -> bool {
        word_select0(
            *self,
            c as int,
            match r {
                Some(p) => Some(p as int),
                None => None,
            },
        )
    }

    fn select0(&self, c: u8) -> (r: Option<u8>) {
        match word::select0(*self, c as u32) {
            Some(p) => Some(p as u8),
            None => None,
        }
    }
}

impl Select1<u16> for u64 {
    type Index = u16;

    open spec fn select1_ready(&self) -> bool {
        true
    }

    open spec fn select1_spec(&self, c: u16, r: Option<u16>) -> bool {
        word_select1(
            *self,
            c as int,
            match r {
                Some(p) => Some(p as int),
                None => None,
            },
        )
    }

    fn select1(&self, c: u16) -> (r: Option<u16>) {
        match word::select1(*self, c as u32) {
            Some(p) => Some(p as u16),
            None => None,
        }
    }
}

impl Select0<u16> for u64 {
    type Index = u16;

    open spec fn select0_ready(&self) -> bool {
        true
    }

    open spec fn select0_spec(&self, c: u16, r: Option<u16>) -> bool {
        word_select0(
            *self,
            c as int,
            match r {
                Some(p) => Some(p as int),
                None => None,
            },
        )
    }

    fn select0(&self, c: u16) -> (r: Option<u16>) {
        match word::select0(*self, c as u32) {
            Some(p) => Some(p as u16),
            None => None,
        }
    }
}

impl Select1<u64> for u64 {
    type Index = u64;

    open spec fn select1_ready(&self) -> bool {
        true
    }

    open spec fn select1_spec(&self, c: u64, r: Option<u64>) -> bool {
        word_select1(
            *self,
            c as int,
            match r {
                Some(p) => Some(p as int),
                None => None,
            },
        )
    }

    fn select1(&self, c: u64) -> (r: Option<u64>) {
        if c >= 64 {
            proof {
                crate::counting::lemma_count_bounds(bits_of(*self), 64);
            }
            return None;
        }
        match word::select1(*self, c as u32) {
            Some(p) => Some(p as u64),
            None => None,
        }
    }
}

impl Select0<u64> for u64 {
    type Index = u64;

    open spec fn select0_ready(&self) -> bool {
        true
    }

    open spec fn select0_spec(&self, c: u64, r: Option<u64>) -> bool {
        word_select0(
            *self,
            c as int,
            match r {
                Some(p) => Some(p as int),
                None => None,
            },
        )
    }

    fn select0(&self, c: u64) -> (r: Option<u64>) {
        if c >= 64 {
            proof {
                crate::counting::lemma_count_bounds(bits_of(*self), 64);
            }
            return None;
        }
        match word::select0(*self, c as u32) {
            Some(p) => Some(p as u64),
            None => None,
        }
    }
}

impl Select1<usize> for u64 {
    type Index = usize;

    open spec fn select1_ready(&self) -> bool {
        true
    }

    open spec fn select1_spec(&self, c: usize, r: Option<usize>) -> bool {
        word_select1(
            *self,
            c as int,
            match r {
                Some(p) => Some(p as int),
                None => None,
            },
        )
    }

    fn select1(&self, c: usize) -> (r: Option<usize>) {
        if c >= 64 {
            proof {
                crate::counting::lemma_count_bounds(bits_of(*self), 64);
            }
            return None;
        }
        match word::select1(*self, c as u32) {
            Some(p) => Some(p as usize),
            None => None,
        }
    }
}

impl Select0<usize> for u64 {
    type Index = usize;

    open spec fn select0_ready(&self) -> bool {
        true
    }

    open spec fn select0_spec(&self, c: usize, r: Option<usize>) -> bool {
        word_select0(
            *self,
            c as int,
            match r {
                Some(p) => Some(p as int),
                None => None,
            },
        )
    }

    fn select0(&self, c: usize) -> (r: Option<usize>) {
        if c >= 64 {
            proof {
                crate::counting::lemma_count_bounds(bits_of(*self), 64);
            }
            return None;
        }
        match word::select0(*self, c as u32) {
            Some(p) => Some(p as usize),
            None => None,
        }
    }
}

} // verus!

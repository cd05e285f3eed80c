//! Rank and select as one capability.

use vstd::prelude::*;
use crate::select::{Select0, Select1};

verus! {

/// Rank among the values that a container holds or lacks.
pub trait Rank<T> {
    /// The type of a number of values.
    type Count;

    /// What the container must satisfy before it is asked.
    spec fn rank_ready(&self) -> bool;

    /// Whether `r` is the number of values below `i`.
    spec fn rank1_spec(&self, i: T, r: Self::Count) -> bool;

    /// Whether `r` is the number of missing values below `i`.
    spec fn rank0_spec(&self, i: T, r: Self::Count) -> bool;

    /// The position `i` as a number.
    spec fn position(i: T) -> int;

    /// The count `c` as a number.
    spec fn number(c: Self::Count) -> int;

    /// The law that every impl proves: the two ranks of a position add up
    /// to the position.
    proof fn lemma_ranks_add_up(&self, i: T, r0: Self::Count, r1: Self::Count)
        requires
            self.rank_ready(),
            self.rank0_spec(i, r0),
            self.rank1_spec(i, r1),
        ensures
            Self::number(r0) + Self::number(r1) == Self::position(i),
    ;

    /// Number of values below `i`.
    fn rank1(&self, i: T) -> (r: Self::Count)
        requires
            self.rank_ready(),
        ensures
            self.rank1_spec(i, r),
    ;

    /// Number of missing values below `i`.
    fn rank0(&self, i: T) -> (r: Self::Count)
        requires
            self.rank_ready(),
        ensures
            self.rank0_spec(i, r),
    ;
}

/// A dictionary of items: how often an item occurs below a position, and
/// where it occurs for a given time.
pub trait Dict<T> {
    /// The items of the dictionary.
    type Item;

    /// The result of `select`.
    type Index;

    /// The result of `rank`.
    type Count;

    /// What the dictionary must satisfy before it is asked.
    spec fn dict_ready(&self) -> bool;

    /// Whether `r` is the number of times that `item` occurs below `i`.
    spec fn rank_spec(&self, item: &Self::Item, i: Self::Index, r: Self::Count) -> bool;

    /// Whether `r` is the position at which `item` occurs with `c` occurrences below it.
    spec fn select_spec(&self, item: &Self::Item, c: Self::Count, r: Option<Self::Index>) -> bool;

    /// Number of times that `item` occurs below `i`.
    fn rank(&self, item: &Self::Item, i: Self::Index) -> (r: Self::Count)
        requires
            self.dict_ready(),
        ensures
            self.rank_spec(item, i, r),
    ;

    /// The position at which `item` occurs with exactly `c` occurrences below it.
    fn select(&self, item: &Self::Item, c: Self::Count) -> (r: Option<Self::Index>)
        requires
            self.dict_ready(),
        ensures
            self.select_spec(item, c, r),
    ;
}

/// A dictionary of bits: whatever has rank and both selects, with
/// positions and ordinals of one type. Its four queries, `rank0`, `rank1`,
/// `select0` and `select1`, are those of the traits that it joins.
pub trait BitDict<T>: Rank<T> + Select0<T, Index = T> + Select1<T, Index = T> {
}

impl<T, U> BitDict<T> for U where U: Rank<T> + Select0<T, Index = T> + Select1<T, Index = T> {
}

} // verus!

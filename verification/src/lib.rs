//! A compressed bitmap engine for sets of unsigned integers.

pub mod counting;
pub mod word;
pub mod select;
pub mod dict;
pub mod ops;
pub mod inner;
pub mod block;
pub mod thunk;
pub mod bit_vec;
pub mod rank_select;
pub mod laws;

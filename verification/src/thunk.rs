//! Deferred combinations of two blocks.
//!
//! A thunk is either a recipe, which names two blocks and the operation
//! that is to combine them, or the block that the recipe gave when it was
//! carried out. A recipe is carried out at most once.

use vstd::prelude::*;
use crate::block::Block;
use crate::ops::Op;

verus! {

/// A block that is computed when it is first asked for.
pub enum Thunk {
    /// The recipe: `op` is still to be applied to `lhs` and `rhs`.
    Deferred { lhs: Block, rhs: Block, op: Op },
    /// The block that the recipe gave.
    Evaluated(Block),
}

impl Thunk {
    /// The blocks that the thunk holds are well formed.
    pub open spec fn wf(&self) -> bool {
        match *self {
            Thunk::Deferred { lhs, rhs, op } => lhs.wf() && rhs.wf(),
            Thunk::Evaluated(b) => b.wf(),
        }
    }

    /// The values of the block that the thunk stands for.
    pub open spec fn value(&self) -> Set<int> {
        match *self {
            Thunk::Deferred { lhs, rhs, op } => op.apply(lhs@, rhs@),
            Thunk::Evaluated(b) => b@,
        }
    }

    /// Whether the recipe has been carried out.
    pub open spec fn evaluated(&self) -> bool {
        self is Evaluated
    }

    /// A thunk for `op` applied to `lhs` and `rhs`. Nothing is computed yet.
    pub fn defer(lhs: Block, rhs: Block, op: Op) -> (r: Self)
        requires
            lhs.wf(),
            rhs.wf(),
        ensures
            r.wf(),
            !r.evaluated(),
            r.value() == op.apply(lhs@, rhs@),
    {
        Thunk::Deferred { lhs, rhs, op }
    }

    /// A thunk that stands for a block that is there already.
    pub fn ready(block: Block) -> (r: Self)
        requires
            block.wf(),
        ensures
            r.wf(),
            r.evaluated(),
            r.value() == block@,
    {
        Thunk::Evaluated(block)
    }

    /// Whether the recipe has been carried out.
    pub fn is_evaluated(&self) -> (r: bool)
        ensures
            r == self.evaluated(),
    {
        match self {
            Thunk::Deferred { .. } => false,
            Thunk::Evaluated(_) => true,
        }
    }

    /// Carries the recipe out, if that has not been done yet, and keeps
    /// the block that it gives. The thunk stands for the same values as before.
    pub fn force(&mut self)
        requires
            old(self).wf(),
        ensures
            final(self).wf(),
            final(self).evaluated(),
            final(self).value() == old(self).value(),
            old(self).evaluated() ==> *final(self) == *old(self),
            !old(self).evaluated() ==> (*final(self) matches Thunk::Evaluated(b) && b.settled()),
    {
        let made: Option<Block> = match &*self {
            Thunk::Deferred { lhs, rhs, op } => Some(lhs.combine(rhs, *op)),
            Thunk::Evaluated(_) => None,
        };
        match made {
            Some(b) => {
                *self = Thunk::Evaluated(b);
            },
            None => {},
        }
    }

    /// The block of a thunk whose recipe has been carried out.
    pub fn get(&self) -> (r: &Block)
        requires
            self.wf(),
            self.evaluated(),
        ensures
            r.wf(),
            r@ == self.value(),
            *self == Thunk::Evaluated(*r),
    {
        match self {
            Thunk::Evaluated(b) => b,
            Thunk::Deferred { lhs, .. } => {
                proof {
                    assert(false);
                }
                lhs
            },
        }
    }

    /// The block that the thunk stands for. The recipe is carried out if
    /// that has not been done yet.
    pub fn into_block(self) -> (r: Block)
        requires
            self.wf(),
        ensures
            r.wf(),
            r@ == self.value(),
            self matches Thunk::Evaluated(b) ==> r == b,
            !self.evaluated() ==> r.settled(),
    {
        match self {
            Thunk::Deferred { lhs, rhs, op } => lhs.combine(&rhs, op),
            Thunk::Evaluated(b) => b,
        }
    }
}

} // verus!

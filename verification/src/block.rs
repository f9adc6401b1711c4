//! A level block: a bit mask plus, for hierarchy levels, one index per bit
//! pointing into the next level.
use vstd::prelude::*;
use crate::bit_utils::{bit_at, set_bit_unchecked};

verus! {

/// A block of a level: a bit mask, and the indices of the next-level blocks
/// that its raised bits point to.
pub trait IBlock: Sized {
    spec fn spec_mask(&self) -> u64;

    spec fn spec_indices(&self) -> Seq<usize>;

    fn mask(&self) -> (m: u64)
        ensures
            m == self.spec_mask(),
    ;

    fn is_empty(&self) -> (r: bool)
        ensures
            r == (self.spec_mask() == 0),
    ;

    /// Index stored at `index`; zero where no item exists.
    fn get_or_zero(&self, index: usize) -> (r: usize)
        requires
            index < self.spec_indices().len(),
        ensures
            r == self.spec_indices()[index as int],
    ;
}

/// Bit mask with the block indices of the next level.
///
/// Hierarchy blocks hold 64 indices (one per mask bit); data blocks hold none.
pub struct Block {
    pub mask: u64,
    /// Next level block indices.
    pub block_indices: Vec<usize>,
}

impl Block {
    /// Every next-level index is zero.
    pub open spec fn indices_zeroed(&self) -> bool {
        forall|i: int| 0 <= i < self.block_indices@.len() ==> #[trigger] self.block_indices@[i] == 0
    }

    /// Empty mask and zeroed indices: the state of a freshly made block.
    pub open spec fn is_zeroed(&self) -> bool {
        self.mask == 0 && self.indices_zeroed()
    }

    /// A zeroed block with `width` next-level indices.
    pub fn empty(width: usize) -> (b: Block)
        ensures
            b.is_zeroed(),
            b.block_indices@.len() == width,
    {
        let mut block_indices: Vec<usize> = Vec::with_capacity(width);
        let mut i: usize = 0;
        while i < width
            invariant
                i <= width,
                block_indices@.len() == i,
                forall|j: int| 0 <= j < i ==> #[trigger] block_indices@[j] == 0,
            decreases width - i,
        {
            block_indices.push(0);
            i += 1;
        }
        Block { mask: 0, block_indices }
    }

    /// Block with the given mask and indices.
    pub fn from_parts(mask: u64, block_indices: Vec<usize>) -> (b: Block)
        ensures
            b.mask == mask,
            b.block_indices@ == block_indices@,
    {
        Block { mask, block_indices }
    }

    /// Raises mask bit `index` and stores `item` there.
    pub fn insert_unchecked(&mut self, index: usize, item: usize)
        requires
            index < 64,
            index < old(self).block_indices@.len(),
        ensures
            final(self).block_indices@ == old(self).block_indices@.update(index as int, item),
            forall|j: u64| j < 64 ==> #[trigger] bit_at(final(self).mask, j) == (j == index as u64 || bit_at(old(self).mask, j)),
    {
        set_bit_unchecked(&mut self.mask, index, true);
        self.block_indices.set(index, item);
    }

    /// Clears mask bit `index` and zeroes the index stored there.
    pub fn remove_unchecked(&mut self, index: usize)
        requires
            index < 64,
            index < old(self).block_indices@.len(),
        ensures
            final(self).block_indices@ == old(self).block_indices@.update(index as int, 0),
            forall|j: u64| j < 64 ==> #[trigger] bit_at(final(self).mask, j) == (j != index as u64 && bit_at(old(self).mask, j)),
    {
        set_bit_unchecked(&mut self.mask, index, false);
        self.block_indices.set(index, 0);
    }

    pub fn clone_block(&self) -> (b: Block)
        ensures
            b.mask == self.mask,
            b.block_indices@ == self.block_indices@,
    {
        let block_indices = self.block_indices.clone();
        proof { assert(block_indices@ =~= self.block_indices@); }
        Block { mask: self.mask, block_indices }
    }
}

impl IBlock for Block {
    open spec fn spec_mask(&self) -> u64 {
        self.mask
    }

    open spec fn spec_indices(&self) -> Seq<usize> {
        self.block_indices@
    }

    fn mask(&self) -> (m: u64) {
        self.mask
    }

    fn is_empty(&self) -> (r: bool) {
        self.mask == 0
    }

    fn get_or_zero(&self, index: usize) -> (r: usize) {
        self.block_indices[index]
    }
}

} // verus!

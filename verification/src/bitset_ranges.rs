//! Bitset with contiguous range insertion and removal.
use vstd::prelude::*;
use core::ops::RangeInclusive;
use crate::bitset::{BitSet, MAX_CAPACITY, index_range};
use crate::bitset_interface::{BitSetBase, LevelMasks};

verus! {

/// `RangeInclusive::into_inner` of std: the lower and the upper (inclusive)
/// bound that the range holds, whether or not it was iterated.
#[verifier::external_body]
fn range_bounds(range: RangeInclusive<usize>) -> (r: (usize, usize))
    ensures
        r == (range@.start, range@.end),
{
    range.into_inner()
}

/// Bitset whose indices are filled and cleared in whole ranges.
///
/// Ranges are filled one data block at a time. The last two data blocks and
/// the last two level-1 blocks of the index range are kept out of use, so the
/// highest index is lower than that of [BitSet].
///
/// Cost: the set is held as a [BitSet], so it uses one data block per
/// 64-index block that holds one of its indices and one level-1 block per
/// 4096-index block that does (see [crate::bitset::lemma_blocks_in_use]).
/// Full blocks are not shared: a range of `n` indices takes about `n / 64`
/// data blocks, and filling or clearing it takes time proportional to the
/// number of 64-index blocks it touches.
pub struct BitSetRanges {
    bitset: BitSet,
}

impl BitSetRanges {
    /// The indices in the set.
    pub closed spec fn view(&self) -> Set<int> {
        self.bitset@
    }

    /// Well formed, with every index below the highest one.
    pub closed spec fn wf(&self) -> bool {
        &&& self.bitset.wf()
        &&& forall|i: int| #[trigger] self.bitset@.contains(i) ==> i < Self::spec_max_capacity()
    }

    /// Highest index the set can hold, plus one.
    pub open spec fn spec_max_capacity() -> int {
        261888
    }

    /// Empty set.
    pub fn new() -> (r: Self)
        ensures
            r.wf(),
            r@ == Set::<int>::empty(),
    {
        BitSetRanges { bitset: BitSet::new() }
    }

    /// Highest index the set can hold, plus one.
    pub fn max_capacity() -> (r: usize)
        ensures
            r == Self::spec_max_capacity(),
    {
        // Two data blocks and two level-1 blocks fewer than a [BitSet].
        MAX_CAPACITY - 64 * 2 - 64 * 2
    }

    /// Is `index` in the set?
    pub fn contains(&self, index: usize) -> (r: bool)
        requires
            self.wf(),
        ensures
            r == self@.contains(index as int),
    {
        if index >= MAX_CAPACITY {
            return false;
        }
        self.bitset.contains(index)
    }

    /// Inserts every index of `range`. The upper bound must be in range.
    pub fn insert_range(&mut self, range: RangeInclusive<usize>)
        requires
            old(self).wf(),
            range@.end < Self::spec_max_capacity(),
        ensures
            final(self).wf(),
            final(self)@ == old(self)@.union(index_range(range@.start as int, range@.end as int)),
    {
        self.fill_range(range, true);
    }

    /// Removes every index of `range`. The upper bound must be in range.
    pub fn remove_range(&mut self, range: RangeInclusive<usize>)
        requires
            old(self).wf(),
            range@.end < Self::spec_max_capacity(),
        ensures
            final(self).wf(),
            final(self)@ == old(self)@.difference(index_range(range@.start as int, range@.end as int)),
    {
        self.fill_range(range, false);
    }

    fn fill_range(&mut self, range: RangeInclusive<usize>, fill: bool)
        requires
            old(self).wf(),
            range@.end < Self::spec_max_capacity(),
        ensures
            final(self).wf(),
            final(self)@ == if fill {
                old(self)@.union(index_range(range@.start as int, range@.end as int))
            } else {
                old(self)@.difference(index_range(range@.start as int, range@.end as int))
            },
    {
        let (first, last) = range_bounds(range);
        if first > last {
            proof {
                assert(index_range(first as int, last as int) =~= Set::<int>::empty());
                assert(self@.union(Set::<int>::empty()) =~= self@);
                assert(self@.difference(Set::<int>::empty()) =~= self@);
            }
            return;
        }
        self.bitset.fill_range(first, last, fill);
    }

    /// Inserts `index`, which must be in range.
    pub fn insert(&mut self, index: usize)
        requires
            old(self).wf(),
            index < Self::spec_max_capacity(),
        ensures
            final(self).wf(),
            final(self)@ == old(self)@.insert(index as int),
    {
        self.bitset.insert(index);
    }

    /// Removes `index`; returns whether it was in the set. An index out of
    /// range is in no set.
    pub fn remove(&mut self, index: usize) -> (existed: bool)
        requires
            old(self).wf(),
        ensures
            final(self).wf(),
            final(self)@ == old(self)@.remove(index as int),
            existed == old(self)@.contains(index as int),
    {
        if index >= Self::max_capacity() {
            proof { assert(self@.remove(index as int) =~= self@); }
            return false;
        }
        self.bitset.remove(index)
    }
}

impl BitSetRanges {
    /// The indices that the masks of the set give are the indices of the set.
    pub proof fn lemma_contents(&self)
        ensures
            crate::bitset_interface::spec_contents(self) == self@,
    {
        assert(crate::bitset_interface::spec_contents(self) =~= self@);
    }
}

impl Clone for BitSetRanges {
    /// A copy of the set.
    fn clone(&self) -> (r: Self)
        ensures
            self.wf() ==> r.wf() && r@ == self@,
    {
        BitSetRanges { bitset: self.bitset.clone() }
    }
}

impl crate::bitset_interface::BitSetInterface for BitSetRanges {
}

impl Default for BitSetRanges {
    fn default() -> (r: Self)
        ensures
            r.wf(),
            r@ == Set::<int>::empty(),
    {
        BitSetRanges::new()
    }
}

impl BitSetBase for BitSetRanges {
    open spec fn spec_trusted_hierarchy() -> bool {
        true
    }

    fn trusted_hierarchy() -> (r: bool) {
        true
    }
}

impl LevelMasks for BitSetRanges {
    open spec fn spec_wf(&self) -> bool {
        self.wf()
    }

    closed spec fn spec_level0_mask(&self) -> u64 {
        self.bitset.spec_level0_mask()
    }

    closed spec fn spec_level1_mask(&self, level0_index: int) -> u64 {
        self.bitset.spec_level1_mask(level0_index)
    }

    closed spec fn spec_data_mask(&self, level0_index: int, level1_index: int) -> u64 {
        self.bitset.spec_data_mask(level0_index, level1_index)
    }

    fn level0_mask(&self) -> (r: u64) {
        self.bitset.level0_mask()
    }

    fn level1_mask(&self, level0_index: usize) -> (r: u64) {
        self.bitset.level1_mask(level0_index)
    }

    fn data_mask(&self, level0_index: usize, level1_index: usize) -> (r: u64) {
        self.bitset.data_mask(level0_index, level1_index)
    }

    proof fn lemma_hierarchy(&self) {
        self.bitset.lemma_hierarchy();
    }
}

} // verus!

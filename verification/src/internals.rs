//! Free-standing entry points over any bitset given by its masks.
use vstd::prelude::*;
use crate::bitset::MAX_CAPACITY;
use crate::bitset_interface::{LevelMasks, spec_contains, spec_contents, bitset_contains, bitsets_eq, bitset_is_empty};
use crate::iter::{BlockIter, IndexIter, hier_keys};

verus! {

/// Index iterator over `set`, taking it by value.
pub fn into_index_iter<T: LevelMasks>(set: T) -> (r: IndexIter<T>)
    requires
        set.spec_wf(),
    ensures
        r.wf(),
        r.set() == set,
        r.remaining() == spec_contents(&set),
{
    IndexIter::new(set)
}

/// Index iterator over `set`.
pub fn index_iter<'a, T: LevelMasks>(set: &'a T) -> (r: IndexIter<&'a T>)
    requires
        set.spec_wf(),
    ensures
        r.wf(),
        r.set() == set,
        r.remaining() == spec_contents(set),
{
    IndexIter::new(set)
}

/// Block iterator over `set`, taking it by value.
pub fn into_block_iter<T: LevelMasks>(set: T) -> (r: BlockIter<T>)
    requires
        set.spec_wf(),
    ensures
        r.wf(),
        r.set() == set,
        r.remaining() == hier_keys(&set),
{
    BlockIter::new(set)
}

/// Block iterator over `set`.
pub fn block_iter<'a, T: LevelMasks>(set: &'a T) -> (r: BlockIter<&'a T>)
    requires
        set.spec_wf(),
    ensures
        r.wf(),
        r.set() == set,
        r.remaining() == hier_keys(set),
{
    BlockIter::new(set)
}

/// Do `left` and `right` hold the same indices?
pub fn is_eq<L: LevelMasks, R: LevelMasks>(left: L, right: R) -> (r: bool)
    requires
        left.spec_wf(),
        right.spec_wf(),
    ensures
        r == (spec_contents(&left) == spec_contents(&right)),
{
    bitsets_eq(left, right)
}

/// Does `bitset` hold no index?
pub fn is_empty<S: LevelMasks>(bitset: S) -> (r: bool)
    requires
        bitset.spec_wf(),
    ensures
        r == (spec_contents(&bitset) == Set::<int>::empty()),
{
    bitset_is_empty(bitset)
}

/// Is `index` in `bitset`?
pub fn contains<S: LevelMasks>(bitset: S, index: usize) -> (r: bool)
    requires
        bitset.spec_wf(),
        index < MAX_CAPACITY,
    ensures
        r == spec_contains(&bitset, index as int),
{
    bitset_contains(&bitset, index)
}

} // verus!

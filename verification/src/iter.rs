//! Iteration always returns ordered (sorted) sequences.
use vstd::prelude::*;
use crate::bit_utils::{bit_at, bit_of, lowest_bit, lemma_lowest_bit, lemma_bit_zero};
use crate::bit_queue::{BitQueue, PrimitiveBitQueue};
use crate::bitset_interface::LevelMasks;
use crate::data_block::{DataBlock, DataBlockIter, data_block_start_index};
use crate::bitset::MAX_CAPACITY;
use crate::bitset_interface::{spec_contains, spec_contents};
use core::ops::ControlFlow;

use crate::ordered::{after, ascending, least, strictly_increasing, lemma_ascending, lemma_ascending_pop, lemma_ascending_concat, lemma_least};

verus! {

/// `k = (k / 64) * 64 + k % 64` with both parts below 64, for a block key.
pub proof fn lemma_key_parts(k: int)
    requires
        0 <= k < 4096,
    ensures
        0 <= k / 64 < 64,
        0 <= k % 64 < 64,
        k == (k / 64) * 64 + k % 64,
{
}

/// The parts of the block key `l0 * 64 + l1`.
pub proof fn lemma_key_compose(l0: int, l1: int)
    requires
        0 <= l0 < 64,
        0 <= l1 < 64,
    ensures
        0 <= l0 * 64 + l1 < 4096,
        (l0 * 64 + l1) / 64 == l0,
        (l0 * 64 + l1) % 64 == l1,
{
    assert(0 <= l0 * 64 + l1 < 4096) by (nonlinear_arith) requires 0 <= l0 < 64, 0 <= l1 < 64;
    assert((l0 * 64 + l1) / 64 == l0) by (nonlinear_arith) requires 0 <= l0 < 64, 0 <= l1 < 64;
    assert((l0 * 64 + l1) % 64 == l1) by (nonlinear_arith) requires 0 <= l0 < 64, 0 <= l1 < 64;
}

/// Keys `l0 * 64 + l1` of the data blocks that the hierarchy of `s` reaches.
pub open spec fn hier_keys<T: LevelMasks>(s: &T) -> Set<int> {
    Set::new(|k: int| 0 <= k < 4096 && bit_of(s.spec_level0_mask(), k / 64) && bit_of(s.spec_level1_mask(k / 64), k % 64))
}

/// Is block key `k` at or after position `(c0, c1)`?
pub open spec fn key_ge(k: int, c0: int, c1: int) -> bool {
    k / 64 > c0 || (k / 64 == c0 && k % 64 >= c1)
}

/// Block iterator cursor, or position of iterable.
///
/// Created by [BlockIter::cursor], used by [BlockIter::move_to].
/// A default cursor points to the start of the bitset.
#[derive(Clone, Copy, Debug)]
pub struct BlockCursor {
    pub level0_index: u16,
    /// We don't have current/last returned index in iterator.
    pub level1_next_index: u16,
}

impl BlockCursor {
    /// Constructs cursor that points to the start of bitset.
    pub fn start() -> (r: Self)
        ensures
            r.level0_index == 0 && r.level1_next_index == 0,
    {
        BlockCursor { level0_index: 0, level1_next_index: 0 }
    }

    /// Constructs cursor that points to the end of bitset.
    ///
    /// Iterator moved to this cursor will always return `None`.
    pub fn end() -> (r: Self)
        ensures
            r.level0_index == 64 && r.level1_next_index == 64,
    {
        BlockCursor { level0_index: 64, level1_next_index: 64 }
    }

    /// The cursor of the block that contains `index`, or the last index of
    /// the range beyond it.
    pub open spec fn spec_from_index(index: usize) -> BlockCursor {
        let i = crate::spec_min(index as int, 262143);
        BlockCursor { level0_index: crate::bitset::idx0(i) as u16, level1_next_index: crate::bitset::idx1(i) as u16 }
    }

    /// Build cursor that points to the block, that contains `index`.
    pub fn from_index(index: usize) -> (r: Self)
        ensures
            r == Self::spec_from_index(index),
            r.level0_index as int == crate::bitset::idx0(crate::spec_min(index as int, 262143)),
            r.level1_next_index as int == crate::bitset::idx1(crate::spec_min(index as int, 262143)),
    {
        let index = if index < 262143 { index } else { 262143 };
        let (level0, level1, _) = crate::bit_utils::level_indices(index);
        proof { crate::bit_utils::lemma_index_parts(index as int); }
        BlockCursor { level0_index: level0 as u16, level1_next_index: level1 as u16 }
    }

    /// Build cursor that points to `block`.
    pub fn from_block(block: &DataBlock) -> (r: Self)
        ensures
            r == Self::spec_from_index(block.start_index),
            r.level0_index as int == crate::bitset::idx0(crate::spec_min(block.start_index as int, 262143)),
            r.level1_next_index as int == crate::bitset::idx1(crate::spec_min(block.start_index as int, 262143)),
    {
        Self::from_index(block.start_index)
    }
}

impl From<usize> for BlockCursor {
    /// Build cursor that points to the block, that contains `index`.
    fn from(index: usize) -> (r: Self) {
        Self::from_index(index)
    }
}

impl vstd::std_specs::convert::FromSpecImpl<usize> for BlockCursor {
    open spec fn obeys_from_spec() -> bool {
        true
    }

    open spec fn from_spec(v: usize) -> Self {
        BlockCursor::spec_from_index(v)
    }
}

impl<'a> From<&'a DataBlock> for BlockCursor {
    /// Build cursor that points to the `block`.
    fn from(block: &'a DataBlock) -> (r: Self) {
        Self::from_block(block)
    }
}

impl<'a> vstd::std_specs::convert::FromSpecImpl<&'a DataBlock> for BlockCursor {
    open spec fn obeys_from_spec() -> bool {
        true
    }

    open spec fn from_spec(v: &'a DataBlock) -> Self {
        BlockCursor::spec_from_index(v.start_index)
    }
}

impl Default for BlockCursor {
    /// The start of the bitset.
    fn default() -> (r: Self)
        ensures
            r.level0_index == 0 && r.level1_next_index == 0,
    {
        Self::start()
    }
}

/// Block iterator.
///
/// Returns the data blocks that the hierarchy of the bitset reaches, in
/// increasing order of their start index. For a bitset without trusted
/// hierarchy, some of the returned blocks may be empty.
#[derive(Clone)]
pub struct BlockIter<T> {
    virtual_set: T,
    level0_iter: PrimitiveBitQueue,
    level1_iter: PrimitiveBitQueue,
    /// `usize::MAX` - initial state; 64 - after moving past the end.
    level0_index: usize,
}

impl<T: LevelMasks> BlockIter<T> {
    /// The bitset iterated.
    pub closed spec fn set(&self) -> T {
        self.virtual_set
    }

    /// Position of the iterator: the block key from which it goes on.
    pub closed spec fn pos0(&self) -> int {
        if self.level0_index == usize::MAX { 0 } else { self.level0_index as int }
    }

    pub closed spec fn pos1(&self) -> int {
        if self.level0_index == usize::MAX { 0 } else { lowest_bit(self.level1_iter.bits()) }
    }

    /// Has the iterator left its initial state?
    pub closed spec fn started(&self) -> bool {
        self.level0_index != usize::MAX
    }

    /// Keys of the blocks still to be returned.
    pub closed spec fn remaining(&self) -> Set<int> {
        Set::new(|k: int| 0 <= k < 4096 && (
            (k / 64 == self.level0_index && bit_of(self.level1_iter.bits(), k % 64))
            || (bit_of(self.level0_iter.bits(), k / 64) && bit_of(self.virtual_set.spec_level1_mask(k / 64), k % 64))))
    }

    pub closed spec fn wf(&self) -> bool {
        let l0m = self.virtual_set.spec_level0_mask();
        &&& self.virtual_set.spec_wf()
        &&& (self.level0_index == usize::MAX ==> self.level1_iter.bits() == 0 && self.level0_iter.bits() == l0m)
        &&& (self.level0_index != usize::MAX ==> self.level0_index <= 64)
        &&& (self.level0_index != usize::MAX ==> forall|j: u64| #[trigger] bit_at(self.level0_iter.bits(), j)
                == (j < 64 && bit_at(l0m, j) && j > self.level0_index))
        &&& (self.level0_index < 64 ==> bit_of(l0m, self.level0_index as int))
        &&& (self.level0_index < 64 ==> forall|j: u64| j < 64 ==> #[trigger] bit_at(self.level1_iter.bits(), j)
                == (bit_at(self.virtual_set.spec_level1_mask(self.level0_index as int), j)
                    && j >= lowest_bit(self.level1_iter.bits())))
        &&& (self.level0_index == 64 ==> self.level1_iter.bits() == 0)
    }

    /// The keys of the blocks still to be returned are finitely many.
    pub proof fn lemma_remaining_keys_finite(&self)
        ensures
            self.remaining().finite(),
    {
        let range = vstd::set_lib::set_int_range(0, 4096);
        vstd::set_lib::lemma_int_range(0, 4096);
        assert(self.remaining().subset_of(range));
        vstd::set_lib::lemma_len_subset(self.remaining(), range);
    }

    /// The blocks still to be returned are the reachable blocks from the
    /// iterator's position on.
    pub proof fn lemma_remaining_suffix(&self)
        requires
            self.wf(),
        ensures
            self.remaining() == hier_keys(&self.set()).filter(|k: int| key_ge(k, self.pos0(), self.pos1())),
    {
        let s = self.virtual_set;
        let r = hier_keys(&s).filter(|k: int| key_ge(k, self.pos0(), self.pos1()));
        lemma_lowest_bit(self.level1_iter.bits());
        lemma_bit_zero();
        assert forall|k: int| #[trigger] self.remaining().contains(k) == r.contains(k) by {
            if 0 <= k < 4096 {
                lemma_key_parts(k);
                let a = k / 64;
                let b = k % 64;
                if self.level0_index == usize::MAX {
                    assert(bit_at(self.level0_iter.bits(), a as u64) == bit_at(s.spec_level0_mask(), a as u64));
                } else {
                    assert(bit_at(self.level0_iter.bits(), a as u64) == (bit_at(s.spec_level0_mask(), a as u64) && a > self.level0_index));
                    if a == self.level0_index && self.level0_index < 64 {
                        assert(bit_at(self.level1_iter.bits(), b as u64) == (bit_at(s.spec_level1_mask(a), b as u64) && b >= lowest_bit(self.level1_iter.bits())));
                    }
                }
            }
        }
        assert(self.remaining() =~= r);
    }

    /// Iterator over the data blocks of `virtual_set`, from its start.
    pub fn new(virtual_set: T) -> (r: Self)
        requires
            virtual_set.spec_wf(),
        ensures
            r.wf(),
            r.set() == virtual_set,
            r.remaining() == hier_keys(&virtual_set),
            r.pos0() == 0 && r.pos1() == 0,
            !r.started(),
    {
        let level0_iter = PrimitiveBitQueue::new(virtual_set.level0_mask());
        let r = BlockIter { virtual_set, level0_iter, level1_iter: PrimitiveBitQueue::empty(), level0_index: usize::MAX };
        proof {
            lemma_bit_zero();
            assert(r.level1_iter.bits() == 0) by {
                if r.level1_iter.bits() != 0 {
                    let j = crate::bit_utils::lemma_nonzero_has_bit(r.level1_iter.bits());
                    assert(r.level1_iter.spec_queued(j as int));
                }
            }
            assert(r.remaining() =~= hier_keys(&virtual_set));
        }
        r
    }

    /// Constructs cursor for BlockIterator, with current iterator position.
    ///
    /// If you move an iterator to this cursor, it will be in the same
    /// position as this one: the cursor points to the NEXT element.
    pub fn cursor(&self) -> (r: BlockCursor)
        requires
            self.wf(),
        ensures
            r.level0_index == self.pos0(),
            r.level1_next_index == self.pos1(),
            hier_keys(&self.set()).filter(|k: int| key_ge(k, r.level0_index as int, r.level1_next_index as int))
                == self.remaining(),
    {
        proof { self.lemma_remaining_suffix(); }
        if self.level0_index == usize::MAX {
            return BlockCursor::start();
        }
        let current = self.level1_iter.current();
        proof { lemma_lowest_bit(self.level1_iter.bits()); assert(current == lowest_bit(self.level1_iter.bits())); }
        BlockCursor { level0_index: self.level0_index as u16, level1_next_index: current as u16 }
    }

    /// Progress measure: the queued level-0 and level-1 bits, as words.
    pub closed spec fn progress(&self) -> (u64, u64) {
        (self.level0_iter.bits(), self.level1_iter.bits())
    }

    /// Returns the block with the smallest key still to be returned.
    pub fn next(&mut self) -> (r: Option<DataBlock>)
        requires
            old(self).wf(),
        ensures
            final(self).wf(),
            final(self).set() == old(self).set(),
            old(self).started() ==> final(self).started(),
            r is Some ==> final(self).started(),
            match r {
                None => old(self).remaining() == Set::<int>::empty() && final(self).remaining() == Set::<int>::empty()
                    && final(self).progress() == (0u64, 0u64),
                Some(b) => {
                    &&& b.start_index % 64 == 0
                    &&& b.start_index as int / 64 < 4096
                    &&& old(self).remaining().contains(b.start_index as int / 64)
                    &&& forall|x: int| #[trigger] old(self).remaining().contains(x) ==> b.start_index as int / 64 <= x
                    &&& final(self).remaining() == old(self).remaining().remove(b.start_index as int / 64)
                    &&& b.bit_block == old(self).set().spec_data_mask(b.start_index as int / 4096, (b.start_index as int / 64) % 64)
                    &&& b == block_at(&old(self).set(), b.start_index as int / 64)
                    &&& ascending(old(self).remaining()) == seq![b.start_index as int / 64] + ascending(final(self).remaining())
                    &&& (final(self).progress().0 < old(self).progress().0 || (final(self).progress().0 == old(self).progress().0
                        && final(self).progress().1 < old(self).progress().1))
                },
            },
    {
        let ghost old_self = *self;
        let mut level1_index: usize = 0;
        loop
            invariant_except_break
                old_self == *old(self),
                old_self.level0_index != usize::MAX ==> self.level0_index != usize::MAX,
                self.wf(),
                self.virtual_set == old_self.virtual_set,
                self.remaining() == old_self.remaining(),
                self.level0_iter.bits() < old_self.level0_iter.bits() || (self.level0_iter.bits() == old_self.level0_iter.bits()
                    && self.level1_iter.bits() <= old_self.level1_iter.bits()),
            ensures
                self.wf(),
                self.virtual_set == old_self.virtual_set,
                self.level0_index < 64,
                level1_index < 64,
                old_self.remaining().contains(self.level0_index * 64 + level1_index),
                forall|x: int| #[trigger] old_self.remaining().contains(x) ==> self.level0_index * 64 + level1_index <= x,
                self.remaining() == old_self.remaining().remove(self.level0_index * 64 + level1_index),
                self.level0_iter.bits() < old_self.level0_iter.bits() || (self.level0_iter.bits() == old_self.level0_iter.bits()
                    && self.level1_iter.bits() < old_self.level1_iter.bits()),
            decreases self.level0_iter.bits(), self.level1_iter.bits(),
        {
            let ghost before = *self;
            proof {
                lemma_lowest_bit(before.level1_iter.bits());
                lemma_lowest_bit(before.level0_iter.bits());
                lemma_bit_zero();
            }
            match self.level1_iter.next() {
                Some(index) => {
                    level1_index = index;
                    proof {
                        let l0 = self.level0_index as int;
                        let k = l0 * 64 + index;
                        let lb = before.level1_iter.bits();
                        if before.level0_index >= 64 {
                            assert(lb == 0);
                        }
                        assert(l0 < 64);
                        lemma_key_compose(l0, index as int);
                        lemma_lowest_bit(self.level1_iter.bits());
                        // the remaining level-1 bits are the mask's bits from the new lowest one on
                        assert forall|j: u64| j < 64 implies #[trigger] bit_at(self.level1_iter.bits(), j)
                            == (bit_at(self.virtual_set.spec_level1_mask(l0), j) && j >= lowest_bit(self.level1_iter.bits())) by {
                            if bit_at(self.level1_iter.bits(), j) {
                                assert(j >= lowest_bit(self.level1_iter.bits()));
                            } else if bit_at(self.virtual_set.spec_level1_mask(l0), j) && j >= lowest_bit(self.level1_iter.bits()) {
                                // j is above the popped bit and in the mask, so it was queued and is still queued
                                assert(lowest_bit(self.level1_iter.bits()) > index);
                                assert(bit_at(lb, j));
                            }
                        }
                        assert(before.remaining().contains(k));
                        assert forall|x: int| #[trigger] before.remaining().contains(x) implies k <= x by {
                            lemma_key_parts(x);
                            if x / 64 == l0 && bit_of(lb, x % 64) {
                                assert(x % 64 >= index);
                            } else {
                                assert(x / 64 > l0);
                            }
                        }
                        assert forall|x: int| #[trigger] self.remaining().contains(x) == before.remaining().remove(k).contains(x) by {
                            if 0 <= x < 4096 {
                                lemma_key_parts(x);
                                if x / 64 == l0 {
                                    assert(bit_at(self.level1_iter.bits(), (x % 64) as u64) == ((x % 64) != index && bit_at(lb, (x % 64) as u64)));
                                }
                            }
                        }
                        assert(self.remaining() =~= before.remaining().remove(k));
                    }
                    break;
                },
                None => {
                    match self.level0_iter.next() {
                        Some(index) => {
                            self.level0_index = index;
                            let mask = self.virtual_set.level1_mask(index);
                            self.level1_iter = PrimitiveBitQueue::new(mask);
                            proof {
                                let l0b = before.level0_iter.bits();
                                let l0m = self.virtual_set.spec_level0_mask();
                                lemma_lowest_bit(mask);
                                assert(bit_at(l0b, index as u64));
                                assert forall|j: u64| #[trigger] bit_at(self.level0_iter.bits(), j)
                                    == (j < 64 && bit_at(l0m, j) && j > index) by {
                                    if j < 64 {
                                        assert(bit_at(self.level0_iter.bits(), j) == (j != index && bit_at(l0b, j)));
                                        if before.level0_index == usize::MAX {
                                            assert(bit_at(l0b, j) == bit_at(l0m, j));
                                        }
                                        if bit_at(l0b, j) { assert(j >= index); }
                                        if bit_at(l0m, j) && j > index && before.level0_index != usize::MAX {
                                            // j is above the popped lowest bit
                                            assert(index > before.level0_index || before.level0_index == usize::MAX);
                                        }
                                    } else {
                                        crate::bit_utils::lemma_bit_high(self.level0_iter.bits());
                                    }
                                }
                                assert forall|j: u64| j < 64 implies #[trigger] bit_at(self.level1_iter.bits(), j)
                                    == (bit_at(self.virtual_set.spec_level1_mask(index as int), j) && j >= lowest_bit(self.level1_iter.bits())) by {}
                                assert forall|x: int| #[trigger] self.remaining().contains(x) == before.remaining().contains(x) by {
                                    if 0 <= x < 4096 {
                                        lemma_key_parts(x);
                                        if before.level0_index < 64 {
                                            assert(!bit_at(before.level1_iter.bits(), (x % 64) as u64));
                                        }
                                        if x / 64 == index {
                                            assert(bit_at(l0b, index as u64));
                                        }
                                        if before.level0_index == usize::MAX {
                                            assert(bit_at(l0b, (x / 64) as u64) == bit_at(l0m, (x / 64) as u64));
                                        }
                                    }
                                }
                                assert(self.remaining() =~= before.remaining());
                            }
                        },
                        None => {
                            proof {
                                assert(before.level0_iter.bits() == 0);
                                assert(before.level1_iter.bits() == 0);
                                assert forall|x: int| !#[trigger] before.remaining().contains(x) by {}
                                assert(before.remaining() =~= Set::<int>::empty());
                            }
                            return None;
                        },
                    }
                },
            }
        }
        let level0_index = self.level0_index;
        let data_mask = self.virtual_set.data_mask(level0_index, level1_index);
        let block_start_index = data_block_start_index(level0_index, level1_index);
        proof {
            let k = level0_index * 64 + level1_index;
            assert(block_start_index == k * 64);
            assert(block_start_index / 64 == k);
            lemma_key_compose(level0_index as int, level1_index as int);
            assert(block_start_index / 4096 == level0_index as int);
            lemma_block_index(k, 0);
            old_self.lemma_remaining_keys_finite();
            lemma_ascending_pop(old_self.remaining(), k);
        }
        Some(DataBlock { start_index: block_start_index, bit_block: data_mask })
    }
}


impl<T: LevelMasks> BlockIter<T> {
    /// Move iterator to cursor position.
    ///
    /// Fast O(1) operation. The iterator then returns the blocks from the
    /// cursor's position on.
    pub fn move_to(self, cursor: BlockCursor) -> (r: Self)
        requires
            self.wf(),
        ensures
            r.wf(),
            r.set() == self.set(),
            r.remaining() == hier_keys(&self.set()).filter(
                |k: int| key_ge(k, cursor.level0_index as int, cursor.level1_next_index as int)),
    {
        let mut this = self;
        this.move_to_cursor(cursor);
        this
    }

    fn move_to_cursor(&mut self, cursor: BlockCursor)
        requires
            old(self).wf(),
        ensures
            final(self).wf(),
            final(self).started(),
            final(self).set() == old(self).set(),
            final(self).remaining() == hier_keys(&old(self).set()).filter(
                |k: int| key_ge(k, cursor.level0_index as int, cursor.level1_next_index as int)),
    {
        let ghost s = self.virtual_set;
        let ghost c0 = cursor.level0_index as int;
        let ghost c1 = cursor.level1_next_index as int;
        let l0m = self.virtual_set.level0_mask();
        // Reset level0 mask if we are not in the initial state
        if self.level0_index != usize::MAX {
            self.level0_iter = PrimitiveBitQueue::new(l0m);
        }
        proof {
            if self.level0_index == usize::MAX {
                assert(self.level0_iter.bits() == l0m);
            }
        }
        // Mask out level0 mask
        let cursor_level0_index = cursor.level0_index as usize;
        self.level0_iter.zero_first_n(cursor_level0_index);
        let ghost zb = self.level0_iter.bits();
        proof {
            lemma_lowest_bit(zb);
            lemma_bit_zero();
            crate::bit_utils::lemma_bit_high(zb);
            assert forall|j: u64| #[trigger] bit_at(zb, j) == (bit_at(l0m, j) && j >= c0 && j < 64) by {
                crate::bit_utils::lemma_bit_high(l0m);
                assert(self.level0_iter.spec_queued(j as int) == (bit_of(l0m, j as int) && j >= c0));
            }
        }
        match self.level0_iter.next() {
            Some(level0_index) => {
                self.level0_index = level0_index;
                let level1_mask = self.virtual_set.level1_mask(level0_index);
                self.level1_iter = PrimitiveBitQueue::new(level1_mask);
                // mask out level1 mask, if this is the block pointed by cursor
                if level0_index == cursor_level0_index {
                    self.level1_iter.zero_first_n(cursor.level1_next_index as usize);
                }
                proof {
                    let l0 = level0_index as int;
                    let lb = self.level1_iter.bits();
                    lemma_lowest_bit(lb);
                    lemma_lowest_bit(level1_mask);
                    assert(l0 >= c0);
                    assert forall|j: u64| #[trigger] bit_at(self.level0_iter.bits(), j)
                        == (j < 64 && bit_at(l0m, j) && j > level0_index) by {
                        crate::bit_utils::lemma_bit_high(self.level0_iter.bits());
                        if j < 64 && bit_at(l0m, j) && j > level0_index {
                            assert(bit_at(zb, j));
                        }
                    }
                    assert forall|j: u64| j < 64 implies #[trigger] bit_at(lb, j)
                        == (bit_at(s.spec_level1_mask(l0), j) && j >= lowest_bit(lb)) by {
                        if level0_index == cursor_level0_index {
                            assert(self.level1_iter.spec_queued(j as int) == (bit_of(level1_mask, j as int) && j >= c1));
                            if bit_at(lb, j) {
                                assert(j >= lowest_bit(lb));
                            } else if bit_at(level1_mask, j) && j >= lowest_bit(lb) {
                                if lb != 0 {
                                    assert(bit_at(lb, lowest_bit(lb) as u64));
                                    assert(self.level1_iter.spec_queued(lowest_bit(lb)));
                                    assert(lowest_bit(lb) >= c1);
                                } else {
                                    assert(lowest_bit(lb) == 64);
                                }
                            }
                        } else {
                            assert(lb == level1_mask);
                        }
                    }
                    assert(self.wf());
                    self.lemma_remaining_suffix();
                    let tgt = hier_keys(&s).filter(|k: int| key_ge(k, c0, c1));
                    assert forall|k: int| #[trigger] self.remaining().contains(k) == tgt.contains(k) by {
                        if 0 <= k < 4096 {
                            lemma_key_parts(k);
                            let a = k / 64;
                            let b = k % 64;
                            if bit_at(l0m, a as u64) && a >= c0 {
                                assert(bit_at(zb, a as u64));
                                assert(a >= l0);
                            }
                            if a == l0 && level0_index == cursor_level0_index {
                                assert(self.level1_iter.spec_queued(b) == (bit_of(level1_mask, b) && b >= c1));
                            }
                        }
                    }
                    assert(self.remaining() =~= tgt);
                }
            },
            None => {
                self.level1_iter = PrimitiveBitQueue::empty();
                self.level0_index = 64;
                proof {
                    assert(zb == 0);
                    assert(self.level1_iter.bits() == 0) by {
                        if self.level1_iter.bits() != 0 {
                            let j = crate::bit_utils::lemma_nonzero_has_bit(self.level1_iter.bits());
                            assert(self.level1_iter.spec_queued(j as int));
                        }
                    }
                    let tgt = hier_keys(&s).filter(|k: int| key_ge(k, c0, c1));
                    assert forall|k: int| !#[trigger] tgt.contains(k) by {
                        if 0 <= k < 4096 {
                            lemma_key_parts(k);
                            let a = k / 64;
                            if bit_at(l0m, a as u64) && a >= c0 {
                                assert(bit_at(zb, a as u64));
                            }
                        }
                    }
                    assert(self.remaining() =~= tgt);
                }
            },
        }
    }
}


/// `i = kb * 64 + j` splits into the level parts of a block key and a bit.
pub proof fn lemma_block_index(kb: int, j: int)
    requires
        0 <= kb < 4096,
        0 <= j < 64,
    ensures
        0 <= kb * 64 + j < MAX_CAPACITY,
        (kb * 64 + j) / 64 == kb,
        (kb * 64 + j) % 64 == j,
        (kb * 64 + j) / 4096 == kb / 64,
        ((kb * 64 + j) / 64) % 64 == kb % 64,
{
    lemma_key_parts(kb);
    crate::bit_utils::lemma_index_compose(kb / 64, kb % 64, j);
    assert(kb * 64 + j == (kb / 64) * 4096 + (kb % 64) * 64 + j) by (nonlinear_arith)
        requires kb == (kb / 64) * 64 + kb % 64;
    assert((kb * 64 + j) / 64 == kb) by (nonlinear_arith) requires 0 <= kb < 4096, 0 <= j < 64;
}

/// The block key of an index, and its level parts.
pub proof fn lemma_index_key(i: int)
    requires
        0 <= i < MAX_CAPACITY,
    ensures
        0 <= i / 64 < 4096,
        i == (i / 64) * 64 + i % 64,
        (i / 64) / 64 == i / 4096,
        (i / 64) % 64 == (i / 64) % 64,
{
    crate::bit_utils::lemma_index_parts(i);
    assert(0 <= i / 64 < 4096) by (nonlinear_arith) requires 0 <= i < 262144;
    assert((i / 64) / 64 == i / 4096) by (nonlinear_arith) requires 0 <= i;
}

/// For a position below 64 on both levels, `key_ge` is the order of block keys.
pub proof fn lemma_key_ge(k: int, c0: int, c1: int)
    requires
        0 <= k < 4096,
        0 <= c0 < 64,
        0 <= c1 < 64,
    ensures
        key_ge(k, c0, c1) == (k >= c0 * 64 + c1),
{
    lemma_key_parts(k);
    assert(key_ge(k, c0, c1) == (k >= c0 * 64 + c1)) by (nonlinear_arith)
        requires
            0 <= k < 4096, 0 <= c0 < 64, 0 <= c1 < 64,
            0 <= k / 64 < 64, 0 <= k % 64 < 64,
            k == (k / 64) * 64 + k % 64,
            key_ge(k, c0, c1) == (k / 64 > c0 || (k / 64 == c0 && k % 64 >= c1));
}

/// Every index of `s` lies in a block that the hierarchy of `s` reaches.
pub proof fn lemma_contents_in_hier<T: LevelMasks>(s: &T, i: int)
    requires
        s.spec_wf(),
        spec_contains(s, i),
    ensures
        0 <= i < MAX_CAPACITY,
        hier_keys(s).contains(i / 64),
{
    s.lemma_hierarchy();
    crate::bit_utils::lemma_index_parts(i);
    lemma_index_key(i);
    crate::bit_utils::lemma_bit_nonzero(s.spec_data_mask(i / 4096, (i / 64) % 64), (i % 64) as u64);
}

/// Is index `i` at or after the index position `(c0, c1, c2)`?
pub open spec fn index_ge(i: int, c0: int, c1: int, c2: int) -> bool {
    key_ge(i / 64, c0, c1) && (i / 64 == c0 * 64 + c1 ==> i % 64 >= c2)
}

/// The indices of `s` in the blocks with keys in `keys`.
pub open spec fn indices_in_blocks<T: LevelMasks>(s: &T, keys: Set<int>) -> Set<int> {
    Set::new(|i: int| keys.contains(i / 64) && spec_contains(s, i))
}

/// Index iterator cursor.
///
/// Created by [IndexIter::cursor], used by [IndexIter::move_to].
/// Same as [BlockCursor], but for indices.
#[derive(Clone, Copy)]
pub struct IndexCursor {
    pub(crate) block_cursor: BlockCursor,
    pub(crate) data_next_index: u32,
}

impl IndexCursor {
    /// A cursor points inside the index range, or is the end cursor.
    #[verifier::type_invariant]
    pub closed spec fn valid(&self) -> bool {
        ||| (self.block_cursor.level0_index < 64 && self.block_cursor.level1_next_index < 64
            && self.data_next_index <= 64)
        ||| (self.block_cursor.level0_index == 64 && self.block_cursor.level1_next_index == 64
            && self.data_next_index == 64)
    }

    /// Is index `i` at or after the position of the cursor?
    pub closed spec fn at_or_after(&self, i: int) -> bool {
        index_ge(i, self.block_cursor.level0_index as int, self.block_cursor.level1_next_index as int,
            self.data_next_index as int)
    }

    /// Constructs cursor that points to the start of the bitset.
    pub fn start() -> (r: Self)
        ensures
            r == Self::spec_from_index(0),
            forall|i: int| 0 <= i < MAX_CAPACITY ==> #[trigger] r.at_or_after(i),
    {
        let r = IndexCursor { block_cursor: BlockCursor::start(), data_next_index: 0 };
        proof {
            assert forall|i: int| 0 <= i < MAX_CAPACITY implies #[trigger] r.at_or_after(i) by {
                lemma_index_key(i);
                lemma_key_ge(i / 64, 0, 0);
            }
        }
        r
    }

    /// Constructs cursor that points to the end of the bitset.
    ///
    /// Iterator moved to this cursor will always return `None`.
    pub fn end() -> (r: Self)
        ensures
            forall|i: int| 0 <= i < MAX_CAPACITY ==> !#[trigger] r.at_or_after(i),
    {
        let r = IndexCursor { block_cursor: BlockCursor::end(), data_next_index: 64 };
        proof {
            assert forall|i: int| 0 <= i < MAX_CAPACITY implies !#[trigger] r.at_or_after(i) by {
                lemma_index_key(i);
                lemma_key_parts(i / 64);
            }
        }
        r
    }

    /// The cursor of `index`, or of the last index of the range beyond it.
    pub closed spec fn spec_from_index(index: usize) -> IndexCursor {
        let i = crate::spec_min(index as int, 262143);
        IndexCursor {
            block_cursor: BlockCursor { level0_index: crate::bitset::idx0(i) as u16, level1_next_index: crate::bitset::idx1(i) as u16 },
            data_next_index: crate::bitset::idx2(i) as u32,
        }
    }

    /// Build cursor that points to the `index`.
    ///
    /// An index beyond the range points to the last index of the range.
    pub fn from_index(index: usize) -> (r: Self)
        ensures
            r == Self::spec_from_index(index),
            forall|i: int| 0 <= i < MAX_CAPACITY ==> (#[trigger] r.at_or_after(i)
                <==> i >= crate::spec_min(index as int, MAX_CAPACITY - 1)),
    {
        let index = if index < 262143 { index } else { 262143 };
        let (level0, level1, data) = crate::bit_utils::level_indices(index);
        proof { crate::bit_utils::lemma_index_parts(index as int); }
        let r = IndexCursor {
            block_cursor: BlockCursor { level0_index: level0 as u16, level1_next_index: level1 as u16 },
            data_next_index: data as u32,
        };
        proof {
            assert forall|i: int| 0 <= i < MAX_CAPACITY implies (#[trigger] r.at_or_after(i)
                <==> i >= index) by {
                lemma_index_key(i);
                lemma_index_key(index as int);
                lemma_key_ge(i / 64, level0 as int, level1 as int);
                assert((index as int) / 64 == level0 * 64 + level1) by (nonlinear_arith)
                    requires
                        level0 == (index as int) / 4096,
                        level1 == ((index as int) / 64) % 64,
                        ((index as int) / 64) / 64 == (index as int) / 4096,
                        0 <= (index as int) / 64;
                assert((i >= index) == (i / 64 > (index as int) / 64 || (i / 64 == (index as int) / 64 && i % 64 >= data)))
                    by (nonlinear_arith)
                    requires
                        0 <= i, 0 <= index,
                        data == (index as int) % 64,
                        i == (i / 64) * 64 + i % 64,
                        (index as int) == ((index as int) / 64) * 64 + (index as int) % 64,
                        0 <= i % 64 < 64, 0 <= (index as int) % 64 < 64;
            }
        }
        r
    }

    /// Build cursor that points to the `block` start index.
    pub fn from_block(block: &DataBlock) -> (r: Self)
        ensures
            r == Self::spec_from_index(block.start_index),
            forall|i: int| 0 <= i < MAX_CAPACITY ==> (#[trigger] r.at_or_after(i)
                <==> i >= crate::spec_min(block.start_index as int, MAX_CAPACITY - 1)),
    {
        Self::from_index(block.start_index)
    }
}

impl From<usize> for IndexCursor {
    /// Build cursor that points to the `index`.
    fn from(index: usize) -> (r: Self)
        ensures
            forall|i: int| 0 <= i < MAX_CAPACITY ==> (#[trigger] r.at_or_after(i)
                <==> i >= crate::spec_min(index as int, MAX_CAPACITY - 1)),
    {
        Self::from_index(index)
    }
}

impl vstd::std_specs::convert::FromSpecImpl<usize> for IndexCursor {
    open spec fn obeys_from_spec() -> bool {
        true
    }

    open spec fn from_spec(v: usize) -> Self {
        IndexCursor::spec_from_index(v)
    }
}

impl<'a> From<&'a DataBlock> for IndexCursor {
    /// Build cursor that points to the `block` start index.
    fn from(block: &'a DataBlock) -> (r: Self)
        ensures
            forall|i: int| 0 <= i < MAX_CAPACITY ==> (#[trigger] r.at_or_after(i)
                <==> i >= crate::spec_min(block.start_index as int, MAX_CAPACITY - 1)),
    {
        Self::from_block(block)
    }
}

impl<'a> vstd::std_specs::convert::FromSpecImpl<&'a DataBlock> for IndexCursor {
    open spec fn obeys_from_spec() -> bool {
        true
    }

    open spec fn from_spec(v: &'a DataBlock) -> Self {
        IndexCursor::spec_from_index(v.start_index)
    }
}

impl Default for IndexCursor {
    /// The start of the bitset.
    fn default() -> (r: Self)
        ensures
            forall|i: int| 0 <= i < MAX_CAPACITY ==> #[trigger] r.at_or_after(i),
    {
        Self::start()
    }
}

/// Index iterator.
///
/// Same as [BlockIter] but for indices: returns the indices of the bitset in
/// increasing order.
#[derive(Clone)]
pub struct IndexIter<T> {
    block_iter: BlockIter<T>,
    data_block_iter: DataBlockIter,
}

impl<T: LevelMasks> IndexIter<T> {
    /// The bitset iterated.
    pub closed spec fn set(&self) -> T {
        self.block_iter.virtual_set
    }

    /// Has the iterator left its initial state?
    pub closed spec fn started(&self) -> bool {
        self.block_iter.started()
    }

    /// Indices still to be returned.
    pub closed spec fn remaining(&self) -> Set<int> {
        self.data_block_iter.remaining().union(indices_in_blocks(&self.block_iter.virtual_set, self.block_iter.remaining()))
    }

    pub closed spec fn wf(&self) -> bool {
        let s = self.block_iter.virtual_set;
        let d = self.data_block_iter;
        let bits = d.bit_block_iter.bits();
        let kd = d.start_index as int / 64;
        &&& self.block_iter.wf()
        &&& d.wf()
        &&& (d.start_index < MAX_CAPACITY ==> d.start_index % 64 == 0)
        &&& (!self.block_iter.started() ==> bits == 0 && self.block_iter.remaining() == hier_keys(&s))
        &&& (self.block_iter.started() && d.start_index >= MAX_CAPACITY ==> bits == 0
            && self.block_iter.remaining() == Set::<int>::empty())
        &&& (self.block_iter.started() && d.start_index < MAX_CAPACITY ==> {
            &&& self.block_iter.remaining() == hier_keys(&s).filter(|k: int| k > kd)
            &&& crate::bit_utils::is_suffix(bits, s.spec_data_mask(kd / 64, kd % 64))
        })
    }

    /// Iterator over the indices of `virtual_set`, from its start.
    pub fn new(virtual_set: T) -> (r: Self)
        requires
            virtual_set.spec_wf(),
        ensures
            r.wf(),
            r.set() == virtual_set,
            r.remaining() == spec_contents(&virtual_set),
            r.remaining() == after(spec_contents(&virtual_set), -1),
            !r.started(),
    {
        let block_iter = BlockIter::new(virtual_set);
        let data_block_iter = DataBlockIter { start_index: 0, bit_block_iter: PrimitiveBitQueue::empty() };
        let r = IndexIter { block_iter, data_block_iter };
        proof {
            lemma_bit_zero();
            assert(r.data_block_iter.bit_block_iter.bits() == 0) by {
                if r.data_block_iter.bit_block_iter.bits() != 0 {
                    let j = crate::bit_utils::lemma_nonzero_has_bit(r.data_block_iter.bit_block_iter.bits());
                    assert(r.data_block_iter.bit_block_iter.spec_queued(j as int));
                }
            }
            r.lemma_unstarted_remaining();
            assert(spec_contents(&virtual_set) =~= after(spec_contents(&virtual_set), -1));
        }
        r
    }

    /// In the initial state, the iterator has all the indices of its bitset to return.
    proof fn lemma_unstarted_remaining(&self)
        requires
            self.block_iter.wf(),
            !self.block_iter.started(),
            self.data_block_iter.bit_block_iter.bits() == 0,
            self.block_iter.remaining() == hier_keys(&self.block_iter.virtual_set),
        ensures
            self.remaining() == spec_contents(&self.block_iter.virtual_set),
    {
        let s = self.block_iter.virtual_set;
        lemma_bit_zero();
        assert forall|i: int| #[trigger] self.remaining().contains(i) == spec_contents(&s).contains(i) by {
            if spec_contains(&s, i) {
                lemma_contents_in_hier(&s, i);
            }
        }
        assert(self.remaining() =~= spec_contents(&s));
    }
}


/// Past a position, a later block key is past it too.
pub proof fn lemma_key_ge_mono(kb: int, k: int, c0: int, c1: int)
    requires
        0 <= kb < 4096,
        kb < k < 4096,
        key_ge(kb, c0, c1),
    ensures
        key_ge(k, c0, c1),
{
    lemma_key_parts(kb);
    lemma_key_parts(k);
    assert(k / 64 >= kb / 64) by (nonlinear_arith) requires kb < k, 0 <= kb;
    if k / 64 == kb / 64 {
        assert(k % 64 > kb % 64);
    }
}

/// The indices of block `kb` whose bits are raised in `bits`, as a data block iterator holds them.
pub proof fn lemma_block_bits(kb: int, bits: u64, i: int)
    requires
        0 <= kb < 4096,
    ensures
        (kb * 64 <= i < kb * 64 + 64 && crate::bit_utils::bit_of(bits, i - kb * 64))
            == (i / 64 == kb && crate::bit_utils::bit_of(bits, i % 64)),
{
    if kb * 64 <= i < kb * 64 + 64 {
        lemma_block_index(kb, i - kb * 64);
    }
    if i / 64 == kb {
        assert(kb * 64 <= i < kb * 64 + 64) by (nonlinear_arith) requires i / 64 == kb;
        lemma_block_index(kb, i - kb * 64);
    }
}

impl<T: LevelMasks> BlockIter<T> {
    /// Once the smallest remaining block is taken, the blocks left are the
    /// reachable blocks after it.
    proof fn lemma_rest_after(&self, next: &Self, kb: int)
        requires
            self.wf(),
            self.remaining().contains(kb),
            forall|x: int| #[trigger] self.remaining().contains(x) ==> kb <= x,
            next.remaining() == self.remaining().remove(kb),
            next.set() == self.set(),
        ensures
            next.remaining() == hier_keys(&self.set()).filter(|k: int| k > kb),
            0 <= kb < 4096,
    {
        self.lemma_remaining_suffix();
        let tgt = hier_keys(&self.set()).filter(|k: int| k > kb);
        assert forall|k: int| #[trigger] next.remaining().contains(k) == tgt.contains(k) by {
            if tgt.contains(k) {
                lemma_key_ge_mono(kb, k, self.pos0(), self.pos1());
            }
        }
        assert(next.remaining() =~= tgt);
    }
}

impl<T: LevelMasks> IndexIter<T> {
    /// A started iterator whose data block is the block `kb`, whose bits are
    /// a suffix of the block's mask, and whose block iterator holds the
    /// blocks after `kb`, is well formed.
    proof fn lemma_at_block(&self, kb: int)
        requires
            self.block_iter.wf(),
            self.block_iter.started(),
            0 <= kb < 4096,
            self.data_block_iter.start_index == kb * 64,
            crate::bit_utils::is_suffix(self.data_block_iter.bit_block_iter.bits(),
                self.block_iter.virtual_set.spec_data_mask(kb / 64, kb % 64)),
            self.block_iter.remaining() == hier_keys(&self.block_iter.virtual_set).filter(|k: int| k > kb),
        ensures
            self.wf(),
            forall|i: int| #[trigger] self.remaining().contains(i) == (spec_contains(&self.block_iter.virtual_set, i) && (
                i / 64 > kb || (i / 64 == kb && crate::bit_utils::bit_of(self.data_block_iter.bit_block_iter.bits(), i % 64)))),
    {
        let s = self.block_iter.virtual_set;
        let bits = self.data_block_iter.bit_block_iter.bits();
        lemma_block_index(kb, 0);
        assert forall|i: int| #[trigger] self.remaining().contains(i) == (spec_contains(&s, i) && (
            i / 64 > kb || (i / 64 == kb && crate::bit_utils::bit_of(bits, i % 64)))) by {
            lemma_block_bits(kb, bits, i);
            if spec_contains(&s, i) {
                lemma_contents_in_hier(&s, i);
            }
            if i / 64 == kb && crate::bit_utils::bit_of(bits, i % 64) {
                lemma_block_index(kb, i % 64);
                crate::bit_utils::lemma_lowest_bit(bits);
                assert(i == kb * 64 + i % 64);
                assert(spec_contains(&s, i));
            }
        }
    }
}

impl<T: LevelMasks> IndexIter<T> {
    /// Pops the data block iterator's lowest index, if it has one.
    fn next_in_block(&mut self) -> (r: Option<usize>)
        requires
            old(self).wf(),
        ensures
            final(self).wf(),
            final(self).set() == old(self).set(),
            final(self).block_iter == old(self).block_iter,
            match r {
                None => *final(self) == *old(self) && old(self).data_block_iter.bit_block_iter.bits() == 0,
                Some(i) => {
                    &&& old(self).remaining().contains(i as int)
                    &&& forall|x: int| #[trigger] old(self).remaining().contains(x) ==> i <= x
                    &&& final(self).remaining() == old(self).remaining().remove(i as int)
                },
            },
    {
        let ghost old_self = *self;
        let ghost s = self.block_iter.virtual_set;
        let ghost bits = self.data_block_iter.bit_block_iter.bits();
        let ghost kd = self.data_block_iter.start_index as int / 64;
        let r = self.data_block_iter.next();
        proof {
            lemma_bit_zero();
            crate::bit_utils::lemma_lowest_bit(bits);
        }
        match r {
            None => {
                proof {
                    assert(self.data_block_iter.bit_block_iter.bit_block_iter == old_self.data_block_iter.bit_block_iter.bit_block_iter);
                }
                None
            },
            Some(i) => {
                proof {
                    let nb = self.data_block_iter.bit_block_iter.bits();
                    let mask = s.spec_data_mask(kd / 64, kd % 64);
                    assert(old_self.block_iter.started());
                    assert(old_self.data_block_iter.start_index < MAX_CAPACITY);
                    assert(0 <= kd < 4096);
                    lemma_block_index(kd, 0);
                    crate::bit_utils::lemma_suffix_pop(bits, nb, mask);
                    self.lemma_at_block(kd);
                    old_self.lemma_at_block(kd);
                    lemma_block_index(kd, lowest_bit(bits));
                    assert(i as int / 64 == kd && i as int % 64 == lowest_bit(bits));
                    assert forall|x: int| #[trigger] old_self.remaining().contains(x) implies i <= x by {
                        lemma_block_bits(kd, bits, x);
                        if x / 64 == kd {
                            lemma_block_index(kd, x % 64);
                            assert(x == kd * 64 + x % 64);
                        } else {
                            assert(x >= (kd + 1) * 64) by (nonlinear_arith) requires x / 64 > kd, 0 <= x;
                        }
                    }
                    assert forall|x: int| #[trigger] self.remaining().contains(x) == old_self.remaining().remove(i as int).contains(x) by {
                        if x / 64 == kd {
                            lemma_block_index(kd, x % 64);
                            assert(x == kd * 64 + x % 64);
                            if x % 64 == lowest_bit(bits) {
                                assert(x == i);
                            }
                        }
                    }
                    assert(self.remaining() =~= old_self.remaining().remove(i as int));
                }
                Some(i)
            },
        }
    }

    /// Returns the smallest index still to be returned.
    pub fn next(&mut self) -> (r: Option<usize>)
        requires
            old(self).wf(),
        ensures
            final(self).wf(),
            final(self).set() == old(self).set(),
            match r {
                None => old(self).remaining() == Set::<int>::empty() && final(self).remaining() == Set::<int>::empty(),
                Some(i) => {
                    &&& old(self).remaining().contains(i as int)
                    &&& forall|x: int| #[trigger] old(self).remaining().contains(x) ==> i <= x
                    &&& final(self).remaining() == old(self).remaining().remove(i as int)
                    &&& ascending(old(self).remaining()) == seq![i as int] + ascending(final(self).remaining())
                },
            },
    {
        let ghost old_self = *self;
        proof { old_self.lemma_remaining_finite(); }
        if let Some(i) = self.next_in_block() {
            proof { lemma_ascending_pop(old_self.remaining(), i as int); }
            return Some(i);
        }
        // looping, because the block iterator may return empty data blocks.
        loop
            invariant
                old_self == *old(self),
                self.wf(),
                self.set() == old_self.set(),
                self.remaining() == old_self.remaining(),
                self.data_block_iter.bit_block_iter.bits() == 0,
            decreases self.block_iter.progress().0, self.block_iter.progress().1,
        {
            let ghost before = *self;
            let ghost s = self.block_iter.virtual_set;
            proof { lemma_bit_zero(); }
            match self.block_iter.next() {
                None => {
                    proof {
                        assert forall|x: int| !#[trigger] before.remaining().contains(x) by {}
                        assert(before.remaining() =~= Set::<int>::empty());
                        if !self.block_iter.started() {
                            assert(!before.block_iter.started());
                            assert(hier_keys(&s) == before.block_iter.remaining());
                        }
                        let kd = self.data_block_iter.start_index as int / 64;
                        if self.block_iter.started() && self.data_block_iter.start_index < MAX_CAPACITY {
                            crate::bit_utils::lemma_lowest_bit(0u64);
                            if !before.block_iter.started() {
                                assert(hier_keys(&s) == before.block_iter.remaining());
                                assert(hier_keys(&s).filter(|k: int| k > kd) =~= Set::<int>::empty());
                            }
                        }
                        assert forall|x: int| !#[trigger] self.remaining().contains(x) by {}
                        assert(self.remaining() =~= Set::<int>::empty());
                    }
                    return None;
                },
                Some(block) => {
                    let ghost kb = block.start_index as int / 64;
                    self.data_block_iter = block.into_iter();
                    proof {
                        before.block_iter.lemma_rest_after(&self.block_iter, kb);
                        lemma_block_index(kb, 0);
                        crate::bit_utils::lemma_lowest_bit(block.bit_block);
                        crate::bit_utils::lemma_suffix_from(block.bit_block, block.bit_block, 0);
                        self.lemma_at_block(kb);
                        assert forall|x: int| #[trigger] self.remaining().contains(x) == before.remaining().contains(x) by {
                            if spec_contains(&s, x) {
                                lemma_contents_in_hier(&s, x);
                                lemma_index_key(x);
                                if x / 64 == kb {
                                    lemma_block_index(kb, x % 64);
                                    assert(x == kb * 64 + x % 64);
                                }
                            }
                        }
                        assert(self.remaining() =~= before.remaining());
                    }
                    if let Some(i) = self.next_in_block() {
                        proof {
                            before.lemma_remaining_finite();
                            lemma_ascending_pop(old_self.remaining(), i as int);
                        }
                        return Some(i);
                    }
                },
            }
        }
    }
}

impl<T: LevelMasks> IndexIter<T> {
    /// Index iterator cursor, with current iterator position.
    ///
    /// Moving an iterator to this cursor puts it in the same position as
    /// this one: the cursor points to the NEXT index.
    pub fn cursor(&self) -> (r: IndexCursor)
        requires
            self.wf(),
        ensures
            spec_contents(&self.set()).filter(|i: int| r.at_or_after(i)) == self.remaining(),
            !self.started() ==> r == IndexCursor::spec_from_index(0),
    {
        let ghost s = self.block_iter.virtual_set;
        if self.block_iter.level0_index == usize::MAX {
            let r = IndexCursor::start();
            proof {
                self.lemma_unstarted_remaining();
                assert forall|i: int| #[trigger] spec_contents(&s).contains(i) implies r.at_or_after(i) by {}
                assert(spec_contents(&s).filter(|i: int| r.at_or_after(i)) =~= self.remaining());
            }
            return r;
        }
        if self.data_block_iter.start_index >= MAX_CAPACITY {
            let r = IndexCursor::end();
            proof {
                lemma_bit_zero();
                assert forall|i: int| !#[trigger] self.remaining().contains(i) by {}
                assert(spec_contents(&s).filter(|i: int| r.at_or_after(i)) =~= self.remaining());
            }
            return r;
        }
        let (level0_index, level1_index, _) = crate::bit_utils::level_indices(self.data_block_iter.start_index);
        let current = self.data_block_iter.bit_block_iter.current();
        let ghost kd = self.data_block_iter.start_index as int / 64;
        proof {
            lemma_index_key(self.data_block_iter.start_index as int);
            lemma_block_index(kd, 0);
            crate::bit_utils::lemma_index_parts(self.data_block_iter.start_index as int);
        }
        let r = IndexCursor {
            block_cursor: BlockCursor { level0_index: level0_index as u16, level1_next_index: level1_index as u16 },
            data_next_index: current as u32,
        };
        proof {
            let bits = self.data_block_iter.bit_block_iter.bits();
            self.lemma_at_block(kd);
            crate::bit_utils::lemma_lowest_bit(bits);
            assert(kd == level0_index * 64 + level1_index);
            assert forall|i: int| #[trigger] self.remaining().contains(i)
                == (spec_contents(&s).contains(i) && r.at_or_after(i)) by {
                if spec_contains(&s, i) {
                    lemma_index_key(i);
                    lemma_key_ge(i / 64, level0_index as int, level1_index as int);
                }
            }
            assert(spec_contents(&s).filter(|i: int| r.at_or_after(i)) =~= self.remaining());
        }
        r
    }

    /// Move iterator to cursor position.
    ///
    /// Fast O(1) operation. The iterator then returns the indices of its
    /// bitset from the cursor's position on.
    pub fn move_to(self, cursor: IndexCursor) -> (r: Self)
        requires
            self.wf(),
        ensures
            r.wf(),
            r.set() == self.set(),
            r.remaining() == spec_contents(&self.set()).filter(|i: int| cursor.at_or_after(i)),
    {
        let mut this = self;
        this.move_to_cursor(cursor);
        this
    }

    fn move_to_cursor(&mut self, cursor: IndexCursor)
        requires
            old(self).wf(),
        ensures
            final(self).wf(),
            final(self).set() == old(self).set(),
            final(self).remaining() == spec_contents(&old(self).set()).filter(|i: int| cursor.at_or_after(i)),
    {
        proof { use_type_invariant(&cursor); }
        let ghost s = self.block_iter.virtual_set;
        let ghost c0 = cursor.block_cursor.level0_index as int;
        let ghost c1 = cursor.block_cursor.level1_next_index as int;
        let ghost c2 = cursor.data_next_index as int;
        let ghost tgt = spec_contents(&s).filter(|i: int| cursor.at_or_after(i));
        self.block_iter.move_to_cursor(cursor.block_cursor);
        let ghost moved = self.block_iter;
        proof { lemma_bit_zero(); }
        match self.block_iter.next() {
            Some(block) => {
                let ghost kb = block.start_index as int / 64;
                proof {
                    lemma_block_index(kb, 0);
                    if c0 >= 64 {
                        lemma_key_parts(kb);
                        assert(false);
                    }
                }
                let mut data_block_iter = block.into_iter();
                let cursor_block_start_index = data_block_start_index(
                    cursor.block_cursor.level0_index as usize,
                    cursor.block_cursor.level1_next_index as usize,
                );
                // mask out, if this is the block pointed by cursor
                let at_cursor_block = data_block_iter.start_index == cursor_block_start_index;
                if at_cursor_block {
                    data_block_iter.bit_block_iter.zero_first_n(cursor.data_next_index as usize);
                }
                self.data_block_iter = data_block_iter;
                proof {
                    let mask = block.bit_block;
                    let bits = self.data_block_iter.bit_block_iter.bits();
                    moved.lemma_rest_after(&self.block_iter, kb);
                    lemma_key_ge(kb, c0, c1);
                    assert(at_cursor_block == (kb == c0 * 64 + c1)) by (nonlinear_arith)
                        requires
                            at_cursor_block == (kb * 64 == c0 * 4096 + c1 * 64),
                            block.start_index == kb * 64;
                    if at_cursor_block {
                        assert forall|j: u64| j < 64 implies #[trigger] crate::bit_utils::bit_at(bits, j)
                            == (crate::bit_utils::bit_at(mask, j) && j >= c2) by {
                            assert(self.data_block_iter.bit_block_iter.spec_queued(j as int)
                                == (crate::bit_utils::bit_of(mask, j as int) && j >= c2));
                        }
                        crate::bit_utils::lemma_suffix_from(bits, mask, c2);
                    } else {
                        crate::bit_utils::lemma_suffix_from(bits, mask, 0);
                    }
                    self.lemma_at_block(kb);
                    assert forall|i: int| #[trigger] self.remaining().contains(i) == tgt.contains(i) by {
                        if spec_contains(&s, i) {
                            lemma_contents_in_hier(&s, i);
                            lemma_index_key(i);
                            lemma_key_ge(i / 64, c0, c1);
                            if i / 64 >= c0 * 64 + c1 {
                                assert(moved.remaining().contains(i / 64));
                            }
                            if i / 64 == kb {
                                lemma_block_index(kb, i % 64);
                                assert(i == kb * 64 + i % 64);
                                if at_cursor_block {
                                    assert(crate::bit_utils::bit_at(bits, (i % 64) as u64)
                                        == (crate::bit_utils::bit_at(mask, (i % 64) as u64) && i % 64 >= c2));
                                }
                            }
                        }
                    }
                    assert(self.remaining() =~= tgt);
                }
            },
            None => {
                self.data_block_iter = DataBlockIter { start_index: usize::MAX, bit_block_iter: PrimitiveBitQueue::empty() };
                proof {
                    assert(self.data_block_iter.bit_block_iter.bits() == 0) by {
                        if self.data_block_iter.bit_block_iter.bits() != 0 {
                            let j = crate::bit_utils::lemma_nonzero_has_bit(self.data_block_iter.bit_block_iter.bits());
                            assert(self.data_block_iter.bit_block_iter.spec_queued(j as int));
                        }
                    }
                    assert forall|i: int| !#[trigger] tgt.contains(i) by {
                        if spec_contains(&s, i) && cursor.at_or_after(i) {
                            lemma_contents_in_hier(&s, i);
                            assert(moved.remaining().contains(i / 64));
                        }
                    }
                    assert forall|i: int| !#[trigger] self.remaining().contains(i) by {}
                    assert(self.remaining() =~= tgt);
                }
            },
        }
    }
}

impl<T: LevelMasks> BlockIter<T> {
    /// Into index iterator.
    ///
    /// Index iterator will start iteration from the next block.
    pub fn into_indices(self) -> (r: IndexIter<T>)
        requires
            self.wf(),
        ensures
            r.wf(),
            r.set() == self.set(),
            r.remaining() == indices_in_blocks(&self.set(), self.remaining()),
    {
        let ghost s = self.virtual_set;
        let ghost old_bi = self;
        let mut block_iter = self;
        proof { lemma_bit_zero(); old_bi.lemma_remaining_suffix(); }
        match block_iter.next() {
            Some(block) => {
                let ghost kb = block.start_index as int / 64;
                let data_block_iter = block.into_iter();
                let r = IndexIter { block_iter, data_block_iter };
                proof {
                    lemma_block_index(kb, 0);
                    old_bi.lemma_rest_after(&r.block_iter, kb);
                    crate::bit_utils::lemma_suffix_from(block.bit_block, block.bit_block, 0);
                    r.lemma_at_block(kb);
                    let tgt = indices_in_blocks(&s, old_bi.remaining());
                    assert forall|i: int| #[trigger] r.remaining().contains(i) == tgt.contains(i) by {
                        if spec_contains(&s, i) {
                            lemma_contents_in_hier(&s, i);
                            lemma_index_key(i);
                            if i / 64 > kb {
                                lemma_key_ge_mono(kb, i / 64, old_bi.pos0(), old_bi.pos1());
                            }
                            if i / 64 == kb {
                                lemma_block_index(kb, i % 64);
                                assert(i == kb * 64 + i % 64);
                            }
                        }
                    }
                    assert(r.remaining() =~= tgt);
                }
                r
            },
            None => {
                let data_block_iter = DataBlockIter { start_index: usize::MAX, bit_block_iter: PrimitiveBitQueue::empty() };
                let r = IndexIter { block_iter, data_block_iter };
                proof {
                    assert(r.data_block_iter.bit_block_iter.bits() == 0) by {
                        if r.data_block_iter.bit_block_iter.bits() != 0 {
                            let j = crate::bit_utils::lemma_nonzero_has_bit(r.data_block_iter.bit_block_iter.bits());
                            assert(r.data_block_iter.bit_block_iter.spec_queued(j as int));
                        }
                    }
                    if !r.block_iter.started() {
                        assert(hier_keys(&s) =~= old_bi.remaining()) by {
                            assert forall|k: int| #[trigger] hier_keys(&s).contains(k) implies old_bi.remaining().contains(k) by {
                                lemma_key_parts(k);
                            }
                        }
                    }
                    let tgt = indices_in_blocks(&s, old_bi.remaining());
                    assert forall|i: int| !#[trigger] r.remaining().contains(i) by {}
                    assert(r.remaining() =~= tgt);
                }
                r
            },
        }
    }
}

/// The data block with key `k` of `s`.
pub open spec fn block_at<T: LevelMasks>(s: &T, k: int) -> DataBlock {
    DataBlock { start_index: (k * 64) as usize, bit_block: s.spec_data_mask(k / 64, k % 64) }
}

impl<T: LevelMasks> BlockIter<T> {
    /// Calls `f` with each remaining block, in increasing order, until it breaks.
    ///
    /// `Continue` comes back when `f` continued on every block.
    pub fn traverse<B, F: FnMut(DataBlock) -> ControlFlow<B>>(self, f: F) -> (r: ControlFlow<B>)
        requires
            self.wf(),
            forall|k: int| #![trigger call_requires(f, (block_at(&self.set(), k),))] self.remaining().contains(k)
                && (forall|j: int| #[trigger] self.remaining().contains(j) && j < k ==>
                    call_ensures(f, (block_at(&self.set(), j),), ControlFlow::Continue(())))
                ==> call_requires(f, (block_at(&self.set(), k),)),
        ensures
            r is Continue ==> forall|k: int| #[trigger] self.remaining().contains(k) ==>
                call_ensures(f, (block_at(&self.set(), k),), ControlFlow::Continue(())),
            r matches ControlFlow::Break(b) ==> exists|k: int| #[trigger] self.remaining().contains(k)
                && call_ensures(f, (block_at(&self.set(), k),), ControlFlow::Break(b))
                && forall|j: int| #[trigger] self.remaining().contains(j) && j < k ==>
                    call_ensures(f, (block_at(&self.set(), j),), ControlFlow::Continue(())),
    {
        let ghost s = self.set();
        let ghost all = self.remaining();
        let mut g = f;
        let mut it = self;
        loop
            invariant
                it.wf(),
                it.set() == s,
                s == self.set(),
                all == self.remaining(),
                g == f,
                forall|k: int| #![trigger call_requires(f, (block_at(&s, k),))] all.contains(k)
                    && (forall|j: int| #[trigger] all.contains(j) && j < k ==>
                        call_ensures(f, (block_at(&s, j),), ControlFlow::Continue(())))
                    ==> call_requires(f, (block_at(&s, k),)),
                forall|k: int| #[trigger] it.remaining().contains(k) ==> all.contains(k),
                forall|k: int| #[trigger] all.contains(k) && !it.remaining().contains(k) ==>
                    call_ensures(f, (block_at(&s, k),), ControlFlow::Continue(())),
            decreases it.progress().0, it.progress().1,
        {
            let ghost before = it;
            match it.next() {
                None => {
                    return ControlFlow::Continue(());
                },
                Some(block) => {
                    let ghost kb = block.start_index as int / 64;
                    proof {
                        lemma_block_index(kb, 0);
                        assert(block == block_at(&s, kb));
                        assert(all.contains(kb));
                        assert forall|j: int| #[trigger] all.contains(j) && j < kb implies
                            call_ensures(f, (block_at(&s, j),), ControlFlow::Continue(())) by {
                            if before.remaining().contains(j) {
                                assert(kb <= j);
                            }
                        }
                    }
                    let res = g(block);
                    match res {
                        ControlFlow::Break(b) => {
                            proof {
                                assert(all.contains(kb));
                                assert(call_ensures(f, (block_at(&s, kb),), ControlFlow::Break(b)));
                                assert forall|j: int| #[trigger] all.contains(j) && j < kb implies
                                    call_ensures(f, (block_at(&s, j),), ControlFlow::Continue(())) by {
                                    if before.remaining().contains(j) {
                                        assert(kb <= j);
                                    }
                                }
                            }
                            return ControlFlow::Break(b);
                        },
                        ControlFlow::Continue(c) => {
                            proof {
                                assert(c == ());
                                assert forall|k: int| #[trigger] all.contains(k) && !it.remaining().contains(k) implies
                                    call_ensures(f, (block_at(&s, k),), ControlFlow::Continue(())) by {
                                    if k != kb {
                                        assert(!before.remaining().contains(k));
                                    }
                                }
                            }
                        },
                    }
                },
            }
        }
    }
}

impl<T: LevelMasks> BlockIter<T> {
    /// Calls `f` with each remaining block, in increasing order.
    pub fn for_each<F: FnMut(DataBlock)>(self, f: F)
        requires
            self.wf(),
            forall|k: int| #![trigger call_requires(f, (block_at(&self.set(), k),))] self.remaining().contains(k)
                && (forall|j: int| #[trigger] self.remaining().contains(j) && j < k ==>
                    call_ensures(f, (block_at(&self.set(), j),), ()))
                ==> call_requires(f, (block_at(&self.set(), k),)),
        ensures
            forall|k: int| #[trigger] self.remaining().contains(k) ==> call_ensures(f, (block_at(&self.set(), k),), ()),
    {
        let ghost s = self.set();
        let ghost all = self.remaining();
        let mut g = f;
        let mut it = self;
        loop
            invariant
                it.wf(),
                it.set() == s,
                s == self.set(),
                all == self.remaining(),
                g == f,
                forall|k: int| #![trigger call_requires(f, (block_at(&s, k),))] all.contains(k)
                    && (forall|j: int| #[trigger] all.contains(j) && j < k ==>
                        call_ensures(f, (block_at(&s, j),), ()))
                    ==> call_requires(f, (block_at(&s, k),)),
                forall|k: int| #[trigger] it.remaining().contains(k) ==> all.contains(k),
                forall|k: int| #[trigger] all.contains(k) && !it.remaining().contains(k) ==>
                    call_ensures(f, (block_at(&s, k),), ()),
            decreases it.progress().0, it.progress().1,
        {
            let ghost before = it;
            match it.next() {
                None => {
                    return;
                },
                Some(block) => {
                    let ghost kb = block.start_index as int / 64;
                    proof {
                        lemma_block_index(kb, 0);
                        assert(block == block_at(&s, kb));
                        assert(all.contains(kb));
                        assert forall|j: int| #[trigger] all.contains(j) && j < kb implies
                            call_ensures(f, (block_at(&s, j),), ()) by {
                            if before.remaining().contains(j) {
                                assert(kb <= j);
                            }
                        }
                    }
                    g(block);
                    proof {
                        assert forall|k: int| #[trigger] all.contains(k) && !it.remaining().contains(k) implies
                            call_ensures(f, (block_at(&s, k),), ()) by {
                            if k != kb {
                                assert(!before.remaining().contains(k));
                            }
                        }
                    }
                },
            }
        }
    }
}

impl<T: LevelMasks> IndexIter<T> {
    /// Calls `f` with each remaining index, in increasing order.
    pub fn for_each<F: FnMut(usize)>(self, f: F)
        requires
            self.wf(),
            forall|i: usize| #![trigger call_requires(f, (i,))] self.remaining().contains(i as int)
                && (forall|j: usize| #[trigger] self.remaining().contains(j as int) && j < i ==>
                    call_ensures(f, (j,), ()))
                ==> call_requires(f, (i,)),
        ensures
            forall|i: usize| #[trigger] self.remaining().contains(i as int) ==> call_ensures(f, (i,), ()),
    {
        let ghost all = self.remaining();
        let mut g = f;
        let mut it = self;
        loop
            invariant
                it.wf(),
                all == self.remaining(),
                g == f,
                forall|i: usize| #![trigger call_requires(f, (i,))] all.contains(i as int)
                    && (forall|j: usize| #[trigger] all.contains(j as int) && j < i ==>
                        call_ensures(f, (j,), ()))
                    ==> call_requires(f, (i,)),
                forall|i: int| #[trigger] it.remaining().contains(i) ==> all.contains(i),
                forall|i: usize| #[trigger] all.contains(i as int) && !it.remaining().contains(i as int) ==>
                    call_ensures(f, (i,), ()),
            decreases it.remaining().len(),
        {
            let ghost before = it;
            proof { it.lemma_remaining_finite(); }
            match it.next() {
                None => {
                    return;
                },
                Some(index) => {
                    proof {
                        assert(all.contains(index as int));
                        assert forall|j: usize| #[trigger] all.contains(j as int) && j < index implies
                            call_ensures(f, (j,), ()) by {
                            if before.remaining().contains(j as int) {
                                assert(index <= j);
                            }
                        }
                    }
                    g(index);
                    proof {
                        assert forall|i: usize| #[trigger] all.contains(i as int) && !it.remaining().contains(i as int) implies
                            call_ensures(f, (i,), ()) by {
                            if i != index {
                                assert(!before.remaining().contains(i as int));
                            }
                        }
                    }
                },
            }
        }
    }
}

impl<T: LevelMasks> IndexIter<T> {
    /// Calls `f` with each remaining index, in increasing order, until it breaks.
    ///
    /// `Continue` comes back when `f` continued on every index.
    pub fn traverse<B, F: FnMut(usize) -> ControlFlow<B>>(self, f: F) -> (r: ControlFlow<B>)
        requires
            self.wf(),
            forall|i: usize| #![trigger call_requires(f, (i,))] self.remaining().contains(i as int)
                && (forall|j: usize| #[trigger] self.remaining().contains(j as int) && j < i ==>
                    call_ensures(f, (j,), ControlFlow::Continue(())))
                ==> call_requires(f, (i,)),
        ensures
            r is Continue ==> forall|i: usize| #[trigger] self.remaining().contains(i as int) ==>
                call_ensures(f, (i,), ControlFlow::Continue(())),
            r matches ControlFlow::Break(b) ==> exists|i: usize| #[trigger] self.remaining().contains(i as int)
                && call_ensures(f, (i,), ControlFlow::Break(b))
                && forall|j: usize| #[trigger] self.remaining().contains(j as int) && j < i ==>
                    call_ensures(f, (j,), ControlFlow::Continue(())),
    {
        let ghost all = self.remaining();
        let mut g = f;
        let mut it = self;
        loop
            invariant
                it.wf(),
                all == self.remaining(),
                g == f,
                forall|i: usize| #![trigger call_requires(f, (i,))] all.contains(i as int)
                    && (forall|j: usize| #[trigger] all.contains(j as int) && j < i ==>
                        call_ensures(f, (j,), ControlFlow::Continue(())))
                    ==> call_requires(f, (i,)),
                forall|i: int| #[trigger] it.remaining().contains(i) ==> all.contains(i),
                forall|i: usize| #[trigger] all.contains(i as int) && !it.remaining().contains(i as int) ==>
                    call_ensures(f, (i,), ControlFlow::Continue(())),
            decreases it.remaining().len(),
        {
            let ghost before = it;
            proof { it.lemma_remaining_finite(); }
            match it.next() {
                None => {
                    return ControlFlow::Continue(());
                },
                Some(index) => {
                    proof {
                        assert(all.contains(index as int));
                        assert forall|j: usize| #[trigger] all.contains(j as int) && j < index implies
                            call_ensures(f, (j,), ControlFlow::Continue(())) by {
                            if before.remaining().contains(j as int) {
                                assert(index <= j);
                            }
                        }
                    }
                    let res = g(index);
                    match res {
                        ControlFlow::Break(b) => {
                            proof {
                                assert(all.contains(index as int));
                                assert(call_ensures(f, (index,), ControlFlow::Break(b)));
                                assert forall|j: usize| #[trigger] all.contains(j as int) && j < index implies
                                    call_ensures(f, (j,), ControlFlow::Continue(())) by {
                                    if before.remaining().contains(j as int) {
                                        assert(index <= j);
                                    }
                                }
                            }
                            return ControlFlow::Break(b);
                        },
                        ControlFlow::Continue(c) => {
                            proof {
                                assert(c == ());
                                assert forall|i: usize| #[trigger] all.contains(i as int) && !it.remaining().contains(i as int) implies
                                    call_ensures(f, (i,), ControlFlow::Continue(())) by {
                                    if i != index {
                                        assert(!before.remaining().contains(i as int));
                                    }
                                }
                            }
                        },
                    }
                },
            }
        }
    }

    /// The indices still to be returned are finitely many.
    pub proof fn lemma_remaining_finite(&self)
        requires
            self.wf(),
        ensures
            self.remaining().finite(),
    {
        let bound = Set::new(|i: int| 0 <= i < MAX_CAPACITY);
        assert(bound =~= vstd::set_lib::set_int_range(0, MAX_CAPACITY as int));
        vstd::set_lib::lemma_int_range(0, MAX_CAPACITY as int);
        assert forall|i: int| #[trigger] self.remaining().contains(i) implies bound.contains(i) by {
            if self.data_block_iter.remaining().contains(i) {
                let st = self.data_block_iter.start_index as int;
                assert(self.data_block_iter.has(i));
                crate::bit_utils::lemma_bit_zero();
                assert(st < MAX_CAPACITY);
                assert(st + 64 <= MAX_CAPACITY) by (nonlinear_arith)
                    requires st % 64 == 0, st < MAX_CAPACITY, MAX_CAPACITY == 262144, 0 <= st;
            }
        }
        vstd::set_lib::lemma_len_subset(self.remaining(), bound);
    }
}

/// Simple block iterator: gets each data block through the masks of all
/// hierarchy levels.
///
/// Returns the same blocks as [BlockIter], in the same order.
#[derive(Clone)]
pub struct SimpleBlockIter<T> {
    inner: BlockIter<T>,
}

impl<T: LevelMasks> SimpleBlockIter<T> {
    pub closed spec fn wf(&self) -> bool {
        self.inner.wf()
    }

    /// The bitset iterated.
    pub closed spec fn set(&self) -> T {
        self.inner.set()
    }

    /// Keys of the blocks still to be returned.
    pub closed spec fn remaining(&self) -> Set<int> {
        self.inner.remaining()
    }

    pub fn new(virtual_set: T) -> (r: Self)
        requires
            virtual_set.spec_wf(),
        ensures
            r.wf(),
            r.set() == virtual_set,
            r.remaining() == hier_keys(&virtual_set),
    {
        SimpleBlockIter { inner: BlockIter::new(virtual_set) }
    }

    /// Returns the block with the smallest key still to be returned.
    pub fn next(&mut self) -> (r: Option<DataBlock>)
        requires
            old(self).wf(),
        ensures
            final(self).wf(),
            final(self).set() == old(self).set(),
            match r {
                None => old(self).remaining() == Set::<int>::empty(),
                Some(b) => {
                    &&& b == block_at(&old(self).set(), b.start_index as int / 64)
                    &&& old(self).remaining().contains(b.start_index as int / 64)
                    &&& forall|x: int| #[trigger] old(self).remaining().contains(x) ==> b.start_index as int / 64 <= x
                    &&& final(self).remaining() == old(self).remaining().remove(b.start_index as int / 64)
                },
            },
    {
        let r = self.inner.next();
        proof {
            if let Some(b) = r {
                lemma_block_index(b.start_index as int / 64, 0);
            }
        }
        r
    }
}

/// Simple index iterator: the indices of the blocks of a [SimpleBlockIter].
#[derive(Clone)]
pub struct SimpleIndexIter<T> {
    inner: IndexIter<T>,
}

impl<T: LevelMasks> SimpleIndexIter<T> {
    pub closed spec fn wf(&self) -> bool {
        self.inner.wf()
    }

    /// The bitset iterated.
    pub closed spec fn set(&self) -> T {
        self.inner.set()
    }

    /// Indices still to be returned.
    pub closed spec fn remaining(&self) -> Set<int> {
        self.inner.remaining()
    }

    /// Iterator over the indices of the blocks that `block_iter` has yet to return.
    pub fn new(block_iter: SimpleBlockIter<T>) -> (r: Self)
        requires
            block_iter.wf(),
        ensures
            r.wf(),
            r.set() == block_iter.set(),
            r.remaining() == indices_in_blocks(&block_iter.set(), block_iter.remaining()),
    {
        SimpleIndexIter { inner: block_iter.inner.into_indices() }
    }

    /// Returns the smallest index still to be returned.
    pub fn next(&mut self) -> (r: Option<usize>)
        requires
            old(self).wf(),
        ensures
            final(self).wf(),
            final(self).set() == old(self).set(),
            match r {
                None => old(self).remaining() == Set::<int>::empty(),
                Some(i) => {
                    &&& old(self).remaining().contains(i as int)
                    &&& forall|x: int| #[trigger] old(self).remaining().contains(x) ==> i <= x
                    &&& final(self).remaining() == old(self).remaining().remove(i as int)
                },
            },
    {
        self.inner.next()
    }
}


/// Index order: past an index position, a later index is past it too.
pub proof fn lemma_index_ge_mono(i: int, j: int, c0: int, c1: int, c2: int)
    requires
        0 <= i <= j < MAX_CAPACITY,
        (0 <= c0 < 64 && 0 <= c1 < 64) || (c0 == 64 && c1 == 64),
        index_ge(i, c0, c1, c2),
    ensures
        index_ge(j, c0, c1, c2),
{
    lemma_index_key(i);
    lemma_index_key(j);
    assert(i / 64 <= j / 64) by (nonlinear_arith) requires i <= j, 0 <= i;
    if c0 == 64 {
        lemma_key_parts(i / 64);
    } else if i / 64 < j / 64 {
        lemma_key_ge_mono(i / 64, j / 64, c0, c1);
        lemma_key_ge(i / 64, c0, c1);
    } else {
        assert(i % 64 <= j % 64) by (nonlinear_arith)
            requires i <= j, 0 <= i, i / 64 == j / 64, i == (i / 64) * 64 + i % 64, j == (j / 64) * 64 + j % 64;
    }
}

/// Resuming block iteration: an iterator `b` moved to the cursor `c` of an
/// iterator `a` over a bitset in another state continues where `a` stopped.
/// With the same blocks, `b` has exactly `a`'s blocks left; where blocks were
/// only removed, it has those of `a`'s blocks that remain; in any case it
/// never goes back to a block that `a` had already passed.
pub proof fn lemma_block_resume<T: LevelMasks, U: LevelMasks>(a: &BlockIter<T>, c: BlockCursor, b: &BlockIter<U>)
    requires
        hier_keys(&a.set()).filter(|k: int| key_ge(k, c.level0_index as int, c.level1_next_index as int))
            == a.remaining(),
        b.remaining() == hier_keys(&b.set()).filter(
            |k: int| key_ge(k, c.level0_index as int, c.level1_next_index as int)),
    ensures
        hier_keys(&b.set()) == hier_keys(&a.set()) ==> b.remaining() == a.remaining(),
        hier_keys(&b.set()).subset_of(hier_keys(&a.set())) ==> b.remaining() == a.remaining().intersect(
            hier_keys(&b.set())),
        forall|k: int, kp: int|
            #![trigger b.remaining().contains(k), a.remaining().contains(kp)]
            b.remaining().contains(k) && hier_keys(&a.set()).contains(kp) && !a.remaining().contains(kp) ==> kp < k,
{
    let ka = hier_keys(&a.set());
    let kb = hier_keys(&b.set());
    if kb.subset_of(ka) {
        assert(b.remaining() =~= a.remaining().intersect(kb));
    }
    assert forall|k: int, kp: int|
        b.remaining().contains(k) && ka.contains(kp) && !a.remaining().contains(kp) implies kp < k by {
        if k <= kp {
            assert(kb.contains(k));
            if k < kp {
                lemma_key_ge_mono(k, kp, c.level0_index as int, c.level1_next_index as int);
            }
            assert(a.remaining().contains(kp));
        }
    }
}

/// Resuming index iteration: an iterator `b` moved to the cursor `c` of an
/// iterator `a` over a bitset in another state continues where `a` stopped.
/// With the same indices, `b` has exactly `a`'s indices left; where indices
/// were only removed, it has those of `a`'s indices that still exist; in any
/// case it returns no index at or before one that `a` had already returned.
pub proof fn lemma_index_resume<T: LevelMasks, U: LevelMasks>(a: &IndexIter<T>, c: IndexCursor, b: &IndexIter<U>)
    requires
        c.valid(),
        spec_contents(&a.set()).filter(|i: int| c.at_or_after(i)) == a.remaining(),
        b.remaining() == spec_contents(&b.set()).filter(|i: int| c.at_or_after(i)),
    ensures
        spec_contents(&b.set()) == spec_contents(&a.set()) ==> b.remaining() == a.remaining(),
        spec_contents(&b.set()).subset_of(spec_contents(&a.set())) ==> b.remaining() == a.remaining().intersect(
            spec_contents(&b.set())),
        forall|i: int, j: int|
            #![trigger b.remaining().contains(i), a.remaining().contains(j)]
            b.remaining().contains(i) && spec_contents(&a.set()).contains(j) && !a.remaining().contains(j) ==> j < i,
{
    let sa = spec_contents(&a.set());
    let sb = spec_contents(&b.set());
    if sb.subset_of(sa) {
        assert(b.remaining() =~= a.remaining().intersect(sb));
    }
    assert forall|i: int, j: int|
        b.remaining().contains(i) && sa.contains(j) && !a.remaining().contains(j) implies j < i by {
        if i <= j {
            assert(sb.contains(i));
            assert(c.at_or_after(i));
            lemma_index_ge_mono(i, j, c.block_cursor.level0_index as int, c.block_cursor.level1_next_index as int,
                c.data_next_index as int);
            assert(a.remaining().contains(j));
        }
    }
}

/// Index iteration is ordered and complete: the indices an iterator returns,
/// one per call of `next`, are `ascending(it.remaining())` (each call returns
/// its first element and leaves the rest), a strictly increasing sequence
/// that holds each remaining index exactly once. A new iterator has all the
/// indices of its bitset remaining.
pub proof fn lemma_index_iteration<T: LevelMasks>(it: &IndexIter<T>)
    requires
        it.wf(),
    ensures
        it.remaining().finite(),
        strictly_increasing(ascending(it.remaining())),
        ascending(it.remaining()).len() == it.remaining().len(),
        forall|k: int| 0 <= k < ascending(it.remaining()).len()
            ==> it.remaining().contains(#[trigger] ascending(it.remaining())[k]),
        forall|x: int| #[trigger] it.remaining().contains(x) ==> ascending(it.remaining()).contains(x),
{
    it.lemma_remaining_finite();
    lemma_ascending(it.remaining());
}

/// Block iteration is ordered and complete: the blocks an iterator returns,
/// one per call of `next`, have the keys `ascending(it.remaining())` (each
/// call returns the block of the first key and leaves the rest), a strictly
/// increasing sequence with each remaining key exactly once. The block of key
/// `k` is `block_at(&it.set(), k)`, which starts at `k * 64`, so the start
/// indices are strictly increasing multiples of 64. A new iterator has all the
/// keys that the hierarchy of its bitset reaches remaining; see
/// [lemma_blocks_cover_contents] for what those blocks hold.
pub proof fn lemma_block_iteration<T: LevelMasks>(it: &BlockIter<T>)
    ensures
        it.remaining().finite(),
        strictly_increasing(ascending(it.remaining())),
        ascending(it.remaining()).len() == it.remaining().len(),
        forall|k: int| 0 <= k < ascending(it.remaining()).len()
            ==> it.remaining().contains(#[trigger] ascending(it.remaining())[k]),
        forall|x: int| #[trigger] it.remaining().contains(x) ==> ascending(it.remaining()).contains(x),
        forall|k: int| #[trigger] it.remaining().contains(k) ==> block_at(&it.set(), k).start_index == k * 64
            && block_at(&it.set(), k).start_index % 64 == 0,
{
    it.lemma_remaining_keys_finite();
    lemma_ascending(it.remaining());
    assert forall|k: int| #[trigger] it.remaining().contains(k) implies block_at(&it.set(), k).start_index == k * 64
        && block_at(&it.set(), k).start_index % 64 == 0 by {
        lemma_block_index(k, 0);
    }
}

/// The blocks that the hierarchy of `s` reaches hold together exactly the
/// indices of `s`, each block only indices of `s`; with a trusted hierarchy,
/// none of them is empty.
pub proof fn lemma_blocks_cover_contents<T: LevelMasks>(s: &T)
    requires
        s.spec_wf(),
    ensures
        indices_in_blocks(s, hier_keys(s)) == spec_contents(s),
        forall|k: int| #[trigger] hier_keys(s).contains(k) ==> block_at(s, k).indices().subset_of(spec_contents(s)),
        T::spec_trusted_hierarchy() ==> forall|k: int| #[trigger] hier_keys(s).contains(k) ==> block_at(s, k).bit_block != 0,
{
    s.lemma_hierarchy();
    assert forall|i: int| #[trigger] indices_in_blocks(s, hier_keys(s)).contains(i) == spec_contents(s).contains(i) by {
        if spec_contains(s, i) {
            lemma_contents_in_hier(s, i);
        }
    }
    assert(indices_in_blocks(s, hier_keys(s)) =~= spec_contents(s));
    assert forall|k: int| #[trigger] hier_keys(s).contains(k) implies block_at(s, k).indices().subset_of(spec_contents(s)) by {
        lemma_block_index(k, 0);
        assert forall|i: int| #[trigger] block_at(s, k).indices().contains(i) implies spec_contents(s).contains(i) by {
            lemma_block_index(k, i - k * 64);
        }
    }
    if T::spec_trusted_hierarchy() {
        assert forall|k: int| #[trigger] hier_keys(s).contains(k) implies block_at(s, k).bit_block != 0 by {
            lemma_key_parts(k);
        }
    }
}

/// An iterator that has returned exactly the indices of `s` up to `x` (none
/// at the start, with `x == -1`), and then returns `i`, has returned exactly
/// the indices up to `i`.
pub proof fn lemma_index_next_after(s: Set<int>, x: int, i: int)
    requires
        after(s, x).contains(i),
        forall|y: int| #[trigger] after(s, x).contains(y) ==> i <= y,
    ensures
        after(s, x).remove(i) == after(s, i),
{
    assert forall|y: int| #[trigger] after(s, x).remove(i).contains(y)
        == after(s, i).contains(y) by {
        if s.contains(y) && y > i {
            assert(after(s, x).contains(y));
        }
    }
    assert(after(s, x).remove(i) =~= after(s, i));
}

/// Resuming after removals, relative to the last index returned: `a` has
/// returned exactly the indices of its bitset up to `x`, `c` is its cursor,
/// and `b` is moved to `c` over a bitset from which indices were only
/// removed. Then `b` returns exactly the indices of its bitset after `x`:
/// nothing returned before comes again and no remaining index is skipped.
pub proof fn lemma_index_resume_after<T: LevelMasks, U: LevelMasks>(
    a: &IndexIter<T>,
    c: IndexCursor,
    b: &IndexIter<U>,
    x: int,
)
    requires
        spec_contents(&a.set()).filter(|i: int| c.at_or_after(i)) == a.remaining(),
        b.remaining() == spec_contents(&b.set()).filter(|i: int| c.at_or_after(i)),
        a.remaining() == after(spec_contents(&a.set()), x),
        spec_contents(&b.set()).subset_of(spec_contents(&a.set())),
    ensures
        b.remaining() == after(spec_contents(&b.set()), x),
{
    let sa = spec_contents(&a.set());
    let sb = spec_contents(&b.set());
    assert forall|i: int| #[trigger] b.remaining().contains(i) == after(sb, x).contains(i) by {
        if sb.contains(i) {
            assert(sa.contains(i));
            assert(sa.filter(|k: int| c.at_or_after(k)).contains(i) == c.at_or_after(i));
            assert(after(sa, x).contains(i) == (i > x));
        }
    }
    assert(b.remaining() =~= after(sb, x));
}

/// The indices of the blocks with the given keys of `s`, block after block,
/// each block's indices in increasing order.
pub open spec fn blocks_in_order<T: LevelMasks>(s: &T, keys: Seq<int>) -> Seq<int>
    decreases keys.len(),
{
    if keys.len() == 0 {
        Seq::empty()
    } else {
        ascending(block_at(s, keys[0]).indices()) + blocks_in_order(s, keys.drop_first())
    }
}

/// The indices of `s` in the blocks with keys `keys`, in increasing order,
/// are the indices of those blocks taken block after block in key order.
pub proof fn lemma_blocks_in_order<T: LevelMasks>(s: &T, keys: Set<int>)
    requires
        forall|k: int| #[trigger] keys.contains(k) ==> 0 <= k < 4096,
    ensures
        ascending(indices_in_blocks(s, keys)) == blocks_in_order(s, ascending(keys)),
    decreases keys.len(),
{
    let range = vstd::set_lib::set_int_range(0, 4096);
    vstd::set_lib::lemma_int_range(0, 4096);
    assert(keys.subset_of(range));
    vstd::set_lib::lemma_len_subset(keys, range);
    let all = indices_in_blocks(s, keys);
    let irange = vstd::set_lib::set_int_range(0, MAX_CAPACITY as int);
    vstd::set_lib::lemma_int_range(0, MAX_CAPACITY as int);
    if keys.len() == 0 {
        assert(all =~= Set::<int>::empty());
        assert(ascending(keys) == Seq::<int>::empty());
        assert(ascending(all) == Seq::<int>::empty());
    } else {
        lemma_least(keys);
        let m = least(keys);
        let rest = keys.remove(m);
        lemma_blocks_in_order(s, rest);
        lemma_ascending_pop(keys, m);
        let q = ascending(keys);
        assert(q[0] == m);
        assert(q.drop_first() =~= ascending(rest));
        let blk = block_at(s, m);
        let a = blk.indices();
        let b = indices_in_blocks(s, rest);
        lemma_block_index(m, 0);
        assert(blk.start_index == m * 64);
        crate::data_block::lemma_data_block_iteration(blk);
        assert(b.subset_of(irange));
        vstd::set_lib::lemma_len_subset(b, irange);
        assert forall|i: int| #[trigger] all.contains(i) == a.union(b).contains(i) by {
            if 0 <= i < MAX_CAPACITY {
                lemma_index_key(i);
                if i / 64 == m {
                    lemma_block_index(m, i % 64);
                }
            }
            if a.contains(i) {
                let j = i - m * 64;
                lemma_block_index(m, j);
                assert(i / 64 == m);
            }
        }
        assert(all =~= a.union(b));
        assert forall|x: int, y: int| #[trigger] a.contains(x) && #[trigger] b.contains(y) implies x < y by {
            lemma_block_index(m, x - m * 64);
            lemma_index_key(y);
            assert(rest.contains(y / 64));
            assert(m < y / 64);
            assert(x < y) by (nonlinear_arith)
                requires x < m * 64 + 64, m + 1 <= y / 64, y == (y / 64) * 64 + y % 64, 0 <= y % 64;
        }
        lemma_ascending_concat(a, b);
    }
}

/// Turning a block iterator into an index iterator keeps the order: the
/// indices that [BlockIter::into_indices] returns are the indices of the
/// blocks that the block iterator would still return, block after block in
/// the order it returns them.
pub proof fn lemma_into_indices_order<T: LevelMasks>(bi: &BlockIter<T>)
    ensures
        ascending(indices_in_blocks(&bi.set(), bi.remaining())) == blocks_in_order(&bi.set(), ascending(bi.remaining())),
{
    lemma_blocks_in_order(&bi.set(), bi.remaining());
}

} // verus!

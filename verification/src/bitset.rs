//! Hierarchical sparse bitset: the materialized container.
use vstd::prelude::*;
use crate::bit_utils::{bit_at, bit_of, level_indices, set_bit_unchecked, get_bit_unchecked,
    lemma_bit_zero, lemma_bit_nonzero, lemma_index_parts, lemma_index_compose};
use crate::block::Block;
use crate::level::{Level, lemma_level_update_live, lemma_level_none_live, lemma_level_live_count, live_blocks};
use crate::bitset_interface::{BitSetBase, LevelMasks, spec_contains, spec_contents};
use crate::bit_utils::{one_bits_iter, fill_array_bits_unchecked};
use crate::data_block::DataBlock;
use crate::ops::{BitSetOp, And, Or};

verus! {

/// The indices from `first` to `last`, both included.
pub open spec fn index_range(first: int, last: int) -> Set<int> {
    Set::new(|i: int| first <= i <= last)
}

/// Largest index a [BitSet] can hold, plus one: `64 * 64 * 64`.
pub const MAX_CAPACITY: usize = 262144;

/// Level-0 part of an index.
pub open spec fn idx0(i: int) -> int {
    i / 4096
}

/// Level-1 part of an index.
pub open spec fn idx1(i: int) -> int {
    (i / 64) % 64
}

/// Data part of an index.
pub open spec fn idx2(i: int) -> int {
    i % 64
}

/// Hierarchical sparse bitset.
///
/// Tri-level hierarchy of 64-bit blocks. Highest index it can hold is
/// `64 * 64 * 64 - 1`. Only the last level holds actual data; empty data
/// blocks are not allocated. Each raised bit of a hierarchy block points to a
/// non-empty block of the next level.
pub struct BitSet {
    level0: Block,
    level1: Level,
    data: Level,
}

impl BitSet {
    /// Level-1 block index stored in level 0 at `l0`.
    spec fn l1_of(&self, l0: int) -> int {
        self.level0.block_indices@[l0] as int
    }

    spec fn l1_block(&self, l0: int) -> Block {
        self.level1.blocks@[self.l1_of(l0)]
    }

    /// Data block index reached through `l0`, `l1`.
    spec fn d_of(&self, l0: int, l1: int) -> int {
        self.l1_block(l0).block_indices@[l1] as int
    }

    /// Level-1 mask reached through `l0` (zero where there is none).
    pub closed spec fn level1_mask_at(&self, l0: int) -> u64 {
        self.l1_block(l0).mask
    }

    /// Data mask reached through `l0`, `l1` (zero where there is none).
    pub closed spec fn data_mask_at(&self, l0: int, l1: int) -> u64 {
        self.data.blocks@[self.d_of(l0, l1)].mask
    }

    /// Level-0 mask.
    pub closed spec fn level0_mask_spec(&self) -> u64 {
        self.level0.mask
    }

    spec fn shape_ok(&self) -> bool {
        &&& self.level0.block_indices@.len() == 64
        &&& self.level1.wf()
        &&& self.level1.width == 64
        &&& self.data.wf()
        &&& self.data.width == 0
    }

    spec fn l0_ok(&self, l0: int) -> bool {
        &&& (bit_of(self.level0.mask, l0) <==> self.l1_of(l0) != 0)
        &&& (self.l1_of(l0) != 0 ==> self.level1.is_live(self.l1_of(l0)))
    }

    spec fn l1_ok(&self, l0: int, l1: int) -> bool {
        &&& (bit_of(self.l1_block(l0).mask, l1) <==> self.d_of(l0, l1) != 0)
        &&& (self.d_of(l0, l1) != 0 ==> self.data.is_live(self.d_of(l0, l1)))
    }

    spec fn inj0(&self) -> bool {
        forall|a: int, b: int|
            0 <= a < 64 && 0 <= b < 64 && a != b && #[trigger] self.l1_of(a) != 0 ==> self.l1_of(a)
                != #[trigger] self.l1_of(b)
    }

    spec fn inj1(&self) -> bool {
        forall|a0: int, a1: int, b0: int, b1: int|
            0 <= a0 < 64 && 0 <= a1 < 64 && 0 <= b0 < 64 && 0 <= b1 < 64 && (a0 != b0 || a1 != b1)
                && #[trigger] self.d_of(a0, a1) != 0 ==> self.d_of(a0, a1) != #[trigger] self.d_of(
                b0,
                b1,
            )
    }

    /// Every level-1 block in use is reached from level 0.
    spec fn l1_reached(&self) -> bool {
        forall|k: int| #[trigger] self.level1.is_live(k) ==> exists|a: int| 0 <= a < 64 && #[trigger] self.l1_of(a) == k
    }

    /// Every data block in use is reached from level 1.
    spec fn data_reached(&self) -> bool {
        forall|m: int| #[trigger] self.data.is_live(m) ==> exists|a0: int, a1: int|
            0 <= a0 < 64 && 0 <= a1 < 64 && #[trigger] self.d_of(a0, a1) == m
    }

    /// Well formed, except that the level-1 block at `x0` and the data block
    /// at `(x0, x1)` may be empty.
    spec fn wf_except(&self, x0: int, x1: int) -> bool {
        &&& self.shape_ok()
        &&& self.l1_reached()
        &&& self.data_reached()
        &&& forall|l0: int| 0 <= l0 < 64 ==> #[trigger] self.l0_ok(l0)
        &&& forall|l0: int, l1: int| 0 <= l0 < 64 && 0 <= l1 < 64 ==> #[trigger] self.l1_ok(l0, l1)
        &&& self.inj0()
        &&& self.inj1()
        &&& forall|l0: int|
            0 <= l0 < 64 && l0 != x0 && #[trigger] self.l1_of(l0) != 0 ==> self.l1_block(l0).mask
                != 0
        &&& forall|l0: int, l1: int|
            0 <= l0 < 64 && 0 <= l1 < 64 && (l0 != x0 || l1 != x1) && #[trigger] self.d_of(l0, l1)
                != 0 ==> self.data.blocks@[self.d_of(l0, l1)].mask != 0
    }

    /// Internal invariant of the container.
    pub closed spec fn wf(&self) -> bool {
        self.wf_except(-1, -1)
    }

    /// Is `i` in the set?
    pub open spec fn has(&self, i: int) -> bool {
        spec_contains(self, i)
    }

    /// The indices in the set.
    pub open spec fn view(&self) -> Set<int> {
        spec_contents(self)
    }

    /// Max index + 1 a [BitSet] can hold.
    pub fn max_capacity() -> (r: usize)
        ensures
            r == MAX_CAPACITY,
    {
        MAX_CAPACITY
    }

    pub fn is_in_range(index: usize) -> (r: bool)
        ensures
            r == (index < MAX_CAPACITY),
    {
        index < Self::max_capacity()
    }

    /// Empty set.
    ///
    /// Only the root block and the reserved empty block of each lower level
    /// are allocated.
    pub fn new() -> (s: BitSet)
        ensures
            s.wf(),
            s@ == Set::<int>::empty(),
            s.hi_blocks_used() == 1,
            s.data_blocks_used() == 1,
    {
        let level0 = Block::empty(64);
        let level1 = Level::new(64);
        let data = Level::new(0);
        let s = BitSet { level0, level1, data };
        proof {
            lemma_bit_zero();
            assert forall|l0: int| 0 <= l0 < 64 implies #[trigger] s.l0_ok(l0) by {
                assert(s.l1_of(l0) == 0);
            }
            assert forall|l0: int, l1: int| 0 <= l0 < 64 && 0 <= l1 < 64 implies #[trigger] s.l1_ok(l0, l1) by {
                assert(s.l1_of(l0) == 0);
                assert(s.d_of(l0, l1) == 0);
            }
            assert forall|i: int| !s.has(i) by {
                if 0 <= i < MAX_CAPACITY {
                    lemma_index_parts(i);
                    assert(s.l1_of(idx0(i)) == 0);
                    assert(s.d_of(idx0(i), idx1(i)) == 0);
                }
            }
            assert(s@ =~= Set::<int>::empty());
        }
        s
    }

    /// Is `index` in the set?
    pub fn contains(&self, index: usize) -> (r: bool)
        requires
            self.wf(),
            index < MAX_CAPACITY,
        ensures
            r == self@.contains(index as int),
    {
        let (l0, l1, d) = level_indices(index);
        proof { lemma_index_parts(index as int); }
        let m = LevelMasks::data_mask(self, l0, l1);
        get_bit_unchecked(m, d)
    }


    /// Level-1 and data block indices on the path `(level0_index, level1_index)`.
    fn get_block_indices(&self, level0_index: usize, level1_index: usize) -> (r: (usize, usize))
        requires
            self.wf(),
            level0_index < 64,
            level1_index < 64,
        ensures
            r.0 as int == self.l1_of(level0_index as int),
            r.1 as int == self.d_of(level0_index as int, level1_index as int),
            r.0 < self.level1.blocks@.len(),
            r.1 < self.data.blocks@.len(),
    {
        let k = self.level0.block_indices[level0_index];
        proof {
            assert(self.l0_ok(level0_index as int));
            assert(self.l1_ok(level0_index as int, level1_index as int));
        }
        let m = self.level1.blocks[k].block_indices[level1_index];
        (k, m)
    }

    /// Data block index for `(l0, l1)`, inserting empty hierarchy and data
    /// blocks on the way as needed. The contents are unchanged.
    fn get_or_insert_data_block(&mut self, l0: usize, l1: usize) -> (m: usize)
        requires
            old(self).wf(),
            l0 < 64,
            l1 < 64,
        ensures
            final(self).wf_except(l0 as int, l1 as int),
            m != 0,
            final(self).d_of(l0 as int, l1 as int) == m,
            forall|a0: int, a1: int| 0 <= a0 < 64 && 0 <= a1 < 64 ==>
                #[trigger] final(self).data_mask_at(a0, a1) == old(self).data_mask_at(a0, a1),
            final(self).level1.used_len() <= old(self).level1.used_len() + 1,
            final(self).data.used_len() <= old(self).data.used_len() + 1,
    {
        let ghost s0 = *self;
        proof { lemma_bit_zero(); }
        let mut k = self.level0.block_indices[l0];
        proof { assert(self.l0_ok(l0 as int)); }
        if k == 0 {
            k = self.level1.insert_empty_block();
            self.level0.insert_unchecked(l0, k);
            proof {
                let s1 = *self;
                assert forall|a: int| 0 <= a < 64 && a != l0 implies s1.l1_of(a) == s0.l1_of(a) by {}
                assert forall|a: int| 0 <= a < 64 implies #[trigger] s1.l0_ok(a) by {
                    assert(s0.l0_ok(a));
                    if a != l0 {
                        assert(bit_at(s1.level0.mask, a as u64) == bit_at(s0.level0.mask, a as u64));
                    } else {
                        assert(bit_at(s1.level0.mask, a as u64));
                    }
                }
                assert forall|a: int| 0 <= a < 64 && a != l0 implies s1.l1_block(a) == s0.l1_block(a) by {
                    assert(s0.l0_ok(a));
                }
                assert forall|a0: int, a1: int| 0 <= a0 < 64 && 0 <= a1 < 64 implies #[trigger] s1.l1_ok(a0, a1) by {
                    assert(s0.l1_ok(a0, a1));
                    if a0 == l0 {
                        assert(s1.l1_block(a0).is_zeroed());
                        assert(s1.d_of(a0, a1) == 0);
                    }
                }
                assert forall|a0: int, a1: int| 0 <= a0 < 64 && 0 <= a1 < 64 implies
                    #[trigger] s1.data_mask_at(a0, a1) == s0.data_mask_at(a0, a1) by {
                    if a0 == l0 {
                        assert(s1.d_of(a0, a1) == 0);
                        assert(s0.l1_of(a0) == 0);
                    }
                }
                assert(s1.inj0()) by {
                    assert forall|a: int, b: int| 0 <= a < 64 && 0 <= b < 64 && a != b && #[trigger] s1.l1_of(a) != 0 implies
                        s1.l1_of(a) != #[trigger] s1.l1_of(b) by {
                        assert(s0.l0_ok(a));
                        assert(s0.l0_ok(b));
                    }
                }
                assert(s1.inj1()) by {
                    assert forall|a0: int, a1: int, b0: int, b1: int|
                        0 <= a0 < 64 && 0 <= a1 < 64 && 0 <= b0 < 64 && 0 <= b1 < 64 && (a0 != b0 || a1 != b1)
                        && #[trigger] s1.d_of(a0, a1) != 0 implies s1.d_of(a0, a1) != #[trigger] s1.d_of(b0, b1) by {
                        assert(s1.l1_ok(a0, a1));
                        if a0 == l0 { assert(s1.d_of(a0, a1) == 0); }
                        if b0 == l0 { assert(s1.d_of(b0, b1) == 0); } else {
                            assert(s0.d_of(a0, a1) != s0.d_of(b0, b1));
                        }
                    }
                }
                assert forall|a: int| 0 <= a < 64 && a != l0 && #[trigger] s1.l1_of(a) != 0 implies s1.l1_block(a).mask != 0 by {
                    assert(s1.l1_block(a) == s0.l1_block(a));
                }
                assert forall|a0: int, a1: int|
                    0 <= a0 < 64 && 0 <= a1 < 64 && #[trigger] s1.d_of(a0, a1) != 0
                    implies s1.data.blocks@[s1.d_of(a0, a1)].mask != 0 by {
                    if a0 == l0 { assert(s1.d_of(a0, a1) == 0); } else {
                        assert(s1.l1_block(a0) == s0.l1_block(a0));
                        assert(s1.data_mask_at(a0, a1) == s0.data_mask_at(a0, a1));
                    }
                }
                assert(s1.shape_ok());
                assert forall|x: int| 0 <= x < 64 && s1.level1.is_live(#[trigger] s0.l1_of(x)) implies
                    s1.l1_of(x) == s0.l1_of(x) by {
                    assert(s0.l0_ok(x));
                }
                Self::lemma_l1_reach(s0, s1, k as int, l0 as int);
                assert forall|x0: int, x1: int| 0 <= x0 < 64 && 0 <= x1 < 64 && s1.data.is_live(#[trigger] s0.d_of(x0, x1))
                    implies s1.d_of(x0, x1) == s0.d_of(x0, x1) by {
                    assert(s0.l0_ok(x0));
                    if x0 == l0 {
                        assert(s0.level1.blocks@[0].is_zeroed());
                    }
                }
                Self::lemma_data_reach(s0, s1, -1, 0, 0);
                assert(s1.wf_except(l0 as int, -1));
            }
        }
        let ghost s1 = *self;
        proof {
            assert(s1.wf_except(l0 as int, -1));
            assert(s1.inj0());
            assert(s1.inj1());
        }
        proof {
            assert(s1.l0_ok(l0 as int));
            assert(s1.l1_ok(l0 as int, l1 as int));
        }
        let mut m = self.level1.blocks[k].block_indices[l1];
        if m == 0 {
            m = self.data.insert_empty_block();
            let ghost l1_before = self.level1;
            let blk = &mut self.level1.blocks[k];
            blk.insert_unchecked(l1, m);
            proof {
                lemma_level_update_live(l1_before, self.level1, k as int);
                let s2 = *self;
                assert forall|a: int| 0 <= a < 64 implies #[trigger] s2.l0_ok(a) by {
                    assert(s1.l0_ok(a));
                }
                assert forall|a: int| 0 <= a < 64 && a != l0 implies s2.l1_block(a) == s1.l1_block(a) by {
                    assert(s1.l0_ok(a));
                    if s1.l1_of(a) != 0 {
                        assert(s1.l1_of(a) != s1.l1_of(l0 as int));
                    }
                }
                assert forall|a0: int, a1: int| 0 <= a0 < 64 && 0 <= a1 < 64 implies #[trigger] s2.l1_ok(a0, a1) by {
                    assert(s1.l1_ok(a0, a1));
                    if a0 == l0 {
                        if a1 == l1 {
                            assert(bit_at(s2.l1_block(a0).mask, a1 as u64));
                        } else {
                            assert(bit_at(s2.l1_block(a0).mask, a1 as u64) == bit_at(s1.l1_block(a0).mask, a1 as u64));
                            assert(s2.d_of(a0, a1) == s1.d_of(a0, a1));
                        }
                    }
                }
                assert forall|a0: int, a1: int| 0 <= a0 < 64 && 0 <= a1 < 64 implies
                    #[trigger] s2.data_mask_at(a0, a1) == s1.data_mask_at(a0, a1) by {
                    if a0 == l0 && a1 == l1 {
                        assert(s1.d_of(a0, a1) == 0);
                        assert(s2.data.blocks@[m as int].is_zeroed());
                    } else if a0 == l0 {
                        assert(s2.d_of(a0, a1) == s1.d_of(a0, a1));
                        assert(s1.l1_ok(a0, a1));
                    } else {
                        assert(s1.l1_ok(a0, a1));
                    }
                }
                assert(s2.inj0()) by {
                    assert forall|a: int, b: int| 0 <= a < 64 && 0 <= b < 64 && a != b && #[trigger] s2.l1_of(a) != 0 implies
                        s2.l1_of(a) != #[trigger] s2.l1_of(b) by {
                        assert(s1.l1_of(a) == s2.l1_of(a));
                        assert(s1.l1_of(b) == s2.l1_of(b));
                    }
                }
                assert(s2.inj1()) by {
                    assert forall|a0: int, a1: int, b0: int, b1: int|
                        0 <= a0 < 64 && 0 <= a1 < 64 && 0 <= b0 < 64 && 0 <= b1 < 64 && (a0 != b0 || a1 != b1)
                        && #[trigger] s2.d_of(a0, a1) != 0 implies s2.d_of(a0, a1) != #[trigger] s2.d_of(b0, b1) by {
                        assert(s1.l1_ok(a0, a1));
                        assert(s1.l1_ok(b0, b1));
                        if a0 == l0 && a1 == l1 {
                            assert(s2.d_of(b0, b1) == s1.d_of(b0, b1));
                        } else if b0 == l0 && b1 == l1 {
                            assert(s2.d_of(a0, a1) == s1.d_of(a0, a1));
                        } else {
                            assert(s2.d_of(a0, a1) == s1.d_of(a0, a1));
                            assert(s2.d_of(b0, b1) == s1.d_of(b0, b1));
                        }
                    }
                }
                assert forall|a: int| 0 <= a < 64 && a != l0 && #[trigger] s2.l1_of(a) != 0 implies s2.l1_block(a).mask != 0 by {}
                assert(bit_at(s2.l1_block(l0 as int).mask, l1 as u64));
                lemma_bit_nonzero(s2.l1_block(l0 as int).mask, l1 as u64);
                assert forall|a0: int, a1: int|
                    0 <= a0 < 64 && 0 <= a1 < 64 && (a0 != l0 || a1 != l1) && #[trigger] s2.d_of(a0, a1) != 0
                    implies s2.data.blocks@[s2.d_of(a0, a1)].mask != 0 by {
                    assert(s2.data_mask_at(a0, a1) == s1.data_mask_at(a0, a1));
                    if a0 == l0 {
                        assert(s2.d_of(a0, a1) == s1.d_of(a0, a1));
                    }
                }
                Self::lemma_l1_reach(s1, s2, -1, 0);
                assert forall|x0: int, x1: int| 0 <= x0 < 64 && 0 <= x1 < 64 && s2.data.is_live(#[trigger] s1.d_of(x0, x1))
                    implies s2.d_of(x0, x1) == s1.d_of(x0, x1) by {
                    assert(s1.l1_ok(x0, x1));
                    if x0 != l0 {
                        assert(s2.l1_block(x0) == s1.l1_block(x0));
                    }
                }
                Self::lemma_data_reach(s1, s2, m as int, l0 as int, l1 as int);
                assert(s2.wf_except(l0 as int, l1 as int));
            }
        } else {
            proof {
                assert(s1.wf_except(l0 as int, l1 as int));
            }
        }
        m
    }

    /// Inserts `index`.
    ///
    /// At most one hierarchy block and one data block come into use, whatever
    /// the index.
    pub fn insert(&mut self, index: usize)
        requires
            old(self).wf(),
            index < MAX_CAPACITY,
        ensures
            final(self).wf(),
            final(self)@ == old(self)@.insert(index as int),
            final(self).has(index as int),
            forall|j: int| j != index ==> #[trigger] final(self).has(j) == old(self).has(j),
            final(self).hi_blocks_used() <= old(self).hi_blocks_used() + 1,
            final(self).data_blocks_used() <= old(self).data_blocks_used() + 1,
            final(self).data_blocks_used() == old(self).data_blocks_used()
                + if data_block_keys(old(self)@).contains(index as int / 64) { 0int } else { 1int },
            final(self).hi_blocks_used() == old(self).hi_blocks_used()
                + if level1_block_keys(old(self)@).contains(index as int / 4096) { 0int } else { 1int },
            final(self).data_blocks_used() == 1 + data_block_keys(final(self)@).len(),
            final(self).hi_blocks_used() == 1 + level1_block_keys(final(self)@).len(),
    {
        let ghost s0 = *self;
        let (l0, l1, d) = level_indices(index);
        proof { lemma_index_parts(index as int); }
        let m = self.get_or_insert_data_block(l0, l1);
        let ghost s1 = *self;
        let ghost data_before = self.data;
        proof { assert(s1.l1_ok(l0 as int, l1 as int)); }
        let blk = &mut self.data.blocks[m];
        set_bit_unchecked(&mut blk.mask, d, true);
        proof {
            lemma_level_update_live(data_before, self.data, m as int);
            let s2 = *self;
            assert forall|a0: int, a1: int| 0 <= a0 < 64 && 0 <= a1 < 64 && (a0 != l0 || a1 != l1) implies
                #[trigger] s2.data_mask_at(a0, a1) == s1.data_mask_at(a0, a1) by {
                assert(s1.l1_ok(a0, a1));
                if s1.d_of(a0, a1) != 0 {
                    assert(s1.d_of(l0 as int, l1 as int) != s1.d_of(a0, a1));
                }
            }
            assert forall|a: int| 0 <= a < 64 implies #[trigger] s2.l0_ok(a) by { assert(s1.l0_ok(a)); }
            assert forall|a0: int, a1: int| 0 <= a0 < 64 && 0 <= a1 < 64 implies #[trigger] s2.l1_ok(a0, a1) by {
                assert(s1.l1_ok(a0, a1));
            }
            assert(bit_at(s2.data.blocks@[m as int].mask, d as u64));
            lemma_bit_nonzero(s2.data.blocks@[m as int].mask, d as u64);
            assert forall|a0: int, a1: int|
                0 <= a0 < 64 && 0 <= a1 < 64 && #[trigger] s2.d_of(a0, a1) != 0
                implies s2.data.blocks@[s2.d_of(a0, a1)].mask != 0 by {
                if a0 != l0 || a1 != l1 {
                    assert(s2.data_mask_at(a0, a1) == s1.data_mask_at(a0, a1));
                }
            }
            assert(s2.inj0()) by {
                assert forall|a: int, b: int| 0 <= a < 64 && 0 <= b < 64 && a != b && #[trigger] s2.l1_of(a) != 0 implies
                    s2.l1_of(a) != #[trigger] s2.l1_of(b) by {
                    assert(s1.l1_of(a) == s2.l1_of(a));
                    assert(s1.l1_of(b) == s2.l1_of(b));
                }
            }
            assert(s2.inj1()) by {
                assert forall|a0: int, a1: int, b0: int, b1: int|
                    0 <= a0 < 64 && 0 <= a1 < 64 && 0 <= b0 < 64 && 0 <= b1 < 64 && (a0 != b0 || a1 != b1)
                    && #[trigger] s2.d_of(a0, a1) != 0 implies s2.d_of(a0, a1) != #[trigger] s2.d_of(b0, b1) by {
                    assert(s1.d_of(a0, a1) == s2.d_of(a0, a1));
                    assert(s1.d_of(b0, b1) == s2.d_of(b0, b1));
                }
            }
            assert(s2.shape_ok());
            assert forall|a: int| 0 <= a < 64 && #[trigger] s2.l1_of(a) != 0 implies s2.l1_block(a).mask != 0 by {
                assert(s1.l1_block(a) == s2.l1_block(a));
                if a == l0 {
                    assert(s1.l1_ok(l0 as int, l1 as int));
                    lemma_bit_nonzero(s1.l1_block(a).mask, l1 as u64);
                }
            }
            Self::lemma_l1_reach(s1, s2, -1, 0);
            Self::lemma_data_reach(s1, s2, -1, 0, 0);
            assert(s2.wf());
            assert forall|i: int| #[trigger] s2.has(i) == (s0.has(i) || i == index) by {
                if 0 <= i < MAX_CAPACITY {
                    lemma_index_parts(i);
                    if idx0(i) == l0 && idx1(i) == l1 {
                        if idx2(i) == d {
                            assert(i == index);
                            assert(s2.d_of(l0 as int, l1 as int) == m);
                            assert(bit_at(s2.data.blocks@[m as int].mask, d as u64));
                            assert(s2.has(i));
                        } else {
                            assert(i != index);
                            assert(bit_at(s2.data_mask_at(idx0(i), idx1(i)), idx2(i) as u64)
                                == bit_at(s1.data_mask_at(idx0(i), idx1(i)), idx2(i) as u64));
                        }
                    } else {
                        assert(i != index);
                    }
                    assert(s1.data_mask_at(idx0(i), idx1(i)) == s0.data_mask_at(idx0(i), idx1(i)));
                }
            }
            assert forall|i: int| #[trigger] s2@.contains(i) == s0@.insert(index as int).contains(i) by {
                assert(s2.has(i) == (s0.has(i) || i == index));
            }
            assert(s2@ =~= s0@.insert(index as int));
            lemma_insert_count(&s0, &s2, index as int);
        }
    }

    /// Removes `index`; returns whether it was in the set.
    pub fn remove(&mut self, index: usize) -> (existed: bool)
        requires
            old(self).wf(),
            index < MAX_CAPACITY,
        ensures
            final(self).wf(),
            final(self)@ == old(self)@.remove(index as int),
            existed == old(self)@.contains(index as int),
            !final(self).has(index as int),
            forall|j: int| j != index ==> #[trigger] final(self).has(j) == old(self).has(j),
            final(self).hi_blocks_used() <= old(self).hi_blocks_used(),
            final(self).data_blocks_used() <= old(self).data_blocks_used(),
            final(self).data_blocks_used() == old(self).data_blocks_used()
                - if data_block_keys(old(self)@).contains(index as int / 64)
                    && !data_block_keys(final(self)@).contains(index as int / 64) { 1int } else { 0int },
            final(self).hi_blocks_used() == old(self).hi_blocks_used()
                - if level1_block_keys(old(self)@).contains(index as int / 4096)
                    && !level1_block_keys(final(self)@).contains(index as int / 4096) { 1int } else { 0int },
            final(self).data_blocks_used() == 1 + data_block_keys(final(self)@).len(),
            final(self).hi_blocks_used() == 1 + level1_block_keys(final(self)@).len(),
    {
        let ghost s0 = *self;
        proof { lemma_bit_zero(); }
        let (l0, l1, d) = level_indices(index);
        proof { lemma_index_parts(index as int); }
        let (k, m) = self.get_block_indices(l0, l1);
        if m == 0 {
            proof {
                assert forall|i: int| #[trigger] s0.has(i) == (s0.has(i) && i != index) by {
                    if i == index {
                        assert(s0.data_mask_at(l0 as int, l1 as int) == 0);
                    }
                }
                assert(s0@ =~= s0@.remove(index as int));
                lemma_remove_count(&s0, &s0, index as int);
            }
            return false;
        }
        proof {
            assert(s0.l0_ok(l0 as int));
            assert(s0.l1_ok(l0 as int, l1 as int));
        }
        let ghost data_before = self.data;
        let blk = &mut self.data.blocks[m];
        let existed = set_bit_unchecked(&mut blk.mask, d, false);
        proof {
            lemma_level_update_live(data_before, self.data, m as int);
        }
        let ghost s1 = *self;
        proof {
            // only data block `m` changed
            assert forall|a0: int, a1: int| 0 <= a0 < 64 && 0 <= a1 < 64 && (a0 != l0 || a1 != l1) implies
                #[trigger] s1.data_mask_at(a0, a1) == s0.data_mask_at(a0, a1) by {
                assert(s0.l1_ok(a0, a1));
                if s0.d_of(a0, a1) != 0 {
                    assert(s0.d_of(l0 as int, l1 as int) != s0.d_of(a0, a1));
                }
            }
            assert forall|i: int| #[trigger] s1.has(i) == (s0.has(i) && i != index) by {
                if 0 <= i < MAX_CAPACITY {
                    lemma_index_parts(i);
                    if idx0(i) == l0 && idx1(i) == l1 {
                        if idx2(i) != d {
                            assert(i != index);
                            assert(bit_at(s1.data_mask_at(idx0(i), idx1(i)), idx2(i) as u64)
                                == bit_at(s0.data_mask_at(idx0(i), idx1(i)), idx2(i) as u64));
                        }
                    } else {
                        assert(i != index);
                    }
                }
            }
            lemma_inj_transfer(s0, s1);
            assert forall|a: int| 0 <= a < 64 implies #[trigger] s1.l0_ok(a) by { assert(s0.l0_ok(a)); }
            assert forall|a0: int, a1: int| 0 <= a0 < 64 && 0 <= a1 < 64 implies #[trigger] s1.l1_ok(a0, a1) by {
                assert(s0.l1_ok(a0, a1));
            }
        }
        if self.data.blocks[m].mask != 0 {
            proof {
                assert forall|a0: int, a1: int|
                    0 <= a0 < 64 && 0 <= a1 < 64 && #[trigger] s1.d_of(a0, a1) != 0
                    implies s1.data.blocks@[s1.d_of(a0, a1)].mask != 0 by {
                    if a0 != l0 || a1 != l1 {
                        assert(s1.data_mask_at(a0, a1) == s0.data_mask_at(a0, a1));
                    } else {
                        assert(s1.d_of(a0, a1) == m);
                    }
                }
                assert(s1.shape_ok());
                assert forall|a: int| 0 <= a < 64 && #[trigger] s1.l1_of(a) != 0 implies s1.l1_block(a).mask != 0 by {
                    assert(s1.l1_block(a) == s0.l1_block(a));
                }
                Self::lemma_l1_reach(s0, s1, -1, 0);
                Self::lemma_data_reach(s0, s1, -1, 0, 0);
                assert(s1.wf());
                assert(s1@ =~= s0@.remove(index as int));
                lemma_remove_count(&s0, &s1, index as int);
            }
            return existed;
        }
        // The data block became empty: release it and unlink it from level 1.
        self.data.remove_empty_block_unchecked(m);
        let ghost l1_before = self.level1;
        let blk1 = &mut self.level1.blocks[k];
        blk1.remove_unchecked(l1);
        proof {
            lemma_level_update_live(l1_before, self.level1, k as int);
        }
        let ghost s2 = *self;
        proof {
            assert forall|a: int| 0 <= a < 64 && a != l0 implies s2.l1_block(a) == s0.l1_block(a) by {
                assert(s0.l0_ok(a));
                if s0.l1_of(a) != 0 {
                    assert(s0.l1_of(a) != s0.l1_of(l0 as int));
                }
            }
            assert forall|a1: int| 0 <= a1 < 64 && a1 != l1 implies s2.d_of(l0 as int, a1) == s0.d_of(l0 as int, a1) by {}
            assert(s2.d_of(l0 as int, l1 as int) == 0);
            // every path other than (l0, l1) keeps its data block
            assert forall|a0: int, a1: int| 0 <= a0 < 64 && 0 <= a1 < 64 && (a0 != l0 || a1 != l1) implies
                #[trigger] s2.data_mask_at(a0, a1) == s0.data_mask_at(a0, a1) by {
                assert(s0.l1_ok(a0, a1));
                assert(s2.d_of(a0, a1) == s0.d_of(a0, a1));
                if s0.d_of(a0, a1) != 0 {
                    assert(s0.d_of(l0 as int, l1 as int) != s0.d_of(a0, a1));
                    assert(s2.data.blocks@[s0.d_of(a0, a1)] == s1.data.blocks@[s0.d_of(a0, a1)]);
                } else {
                    assert(s2.data.blocks@[0] == s1.data.blocks@[0]);
                }
                assert(s1.data_mask_at(a0, a1) == s0.data_mask_at(a0, a1));
            }
            assert(s2.data_mask_at(l0 as int, l1 as int) == 0) by {
                assert(s2.data.blocks@[0].is_zeroed());
            }
            assert forall|i: int| #[trigger] s2.has(i) == (s0.has(i) && i != index) by {
                if 0 <= i < MAX_CAPACITY {
                    lemma_index_parts(i);
                    if idx0(i) == l0 && idx1(i) == l1 {
                        assert(s1.data_mask_at(idx0(i), idx1(i)) == 0);
                        assert(s1.has(i) == false);
                    } else {
                        assert(s2.data_mask_at(idx0(i), idx1(i)) == s0.data_mask_at(idx0(i), idx1(i)));
                        assert(i != index);
                    }
                }
            }
            assert forall|a: int| 0 <= a < 64 implies #[trigger] s2.l0_ok(a) by { assert(s0.l0_ok(a)); }
            assert forall|a0: int, a1: int| 0 <= a0 < 64 && 0 <= a1 < 64 implies #[trigger] s2.l1_ok(a0, a1) by {
                assert(s0.l1_ok(a0, a1));
                if a0 == l0 {
                    if a1 == l1 {
                        assert(!bit_at(s2.l1_block(a0).mask, a1 as u64));
                    } else {
                        assert(bit_at(s2.l1_block(a0).mask, a1 as u64) == bit_at(s0.l1_block(a0).mask, a1 as u64));
                        if s0.d_of(a0, a1) != 0 {
                            assert(s0.d_of(l0 as int, l1 as int) != s0.d_of(a0, a1));
                        }
                    }
                } else {
                    if s0.d_of(a0, a1) != 0 {
                        assert(s0.d_of(l0 as int, l1 as int) != s0.d_of(a0, a1));
                    }
                }
            }
            assert(s2.inj0()) by {
                assert forall|a: int, b: int| 0 <= a < 64 && 0 <= b < 64 && a != b && #[trigger] s2.l1_of(a) != 0 implies
                    s2.l1_of(a) != #[trigger] s2.l1_of(b) by {
                    assert(s0.l1_of(a) == s2.l1_of(a));
                    assert(s0.l1_of(b) == s2.l1_of(b));
                }
            }
            assert(s2.inj1()) by {
                assert forall|a0: int, a1: int, b0: int, b1: int|
                    0 <= a0 < 64 && 0 <= a1 < 64 && 0 <= b0 < 64 && 0 <= b1 < 64 && (a0 != b0 || a1 != b1)
                    && #[trigger] s2.d_of(a0, a1) != 0 implies s2.d_of(a0, a1) != #[trigger] s2.d_of(b0, b1) by {
                    if a0 == l0 && a1 == l1 {
                    } else {
                        assert(s2.d_of(a0, a1) == s0.d_of(a0, a1));
                        if b0 == l0 && b1 == l1 {
                        } else {
                            assert(s2.d_of(b0, b1) == s0.d_of(b0, b1));
                        }
                    }
                }
            }
            assert forall|a0: int, a1: int|
                0 <= a0 < 64 && 0 <= a1 < 64 && #[trigger] s2.d_of(a0, a1) != 0
                implies s2.data.blocks@[s2.d_of(a0, a1)].mask != 0 by {
                if a0 != l0 || a1 != l1 {
                    assert(s2.data_mask_at(a0, a1) == s0.data_mask_at(a0, a1));
                    assert(s2.d_of(a0, a1) == s0.d_of(a0, a1));
                }
            }
            assert forall|a: int| 0 <= a < 64 && a != l0 && #[trigger] s2.l1_of(a) != 0 implies s2.l1_block(a).mask != 0 by {}
            Self::lemma_l1_reach(s0, s2, -1, 0);
            assert forall|x0: int, x1: int| 0 <= x0 < 64 && 0 <= x1 < 64 && s2.data.is_live(#[trigger] s0.d_of(x0, x1))
                implies s2.d_of(x0, x1) == s0.d_of(x0, x1) by {
                if x0 != l0 {
                    assert(s2.l1_block(x0) == s0.l1_block(x0));
                }
            }
            Self::lemma_data_reach(s0, s2, -1, 0, 0);
        }
        if self.level1.blocks[k].mask != 0 {
            proof {
                assert(s2.wf());
                assert(s2@ =~= s0@.remove(index as int));
                lemma_remove_count(&s0, &s2, index as int);
            }
            return existed;
        }
        // The level-1 block became empty: release it and unlink it from level 0.
        proof {
            assert forall|j: int| 0 <= j < 64 implies #[trigger] s2.level1.blocks@[k as int].block_indices@[j] == 0 by {
                assert(s2.l1_ok(l0 as int, j));
            }
        }
        self.level1.remove_empty_block_unchecked(k);
        self.level0.remove_unchecked(l0);
        proof {
            let s3 = *self;
            assert forall|a: int| 0 <= a < 64 && a != l0 implies s3.l1_block(a) == s2.l1_block(a) by {
                assert(s2.l0_ok(a));
                if s2.l1_of(a) != 0 {
                    assert(s2.l1_of(a) != s2.l1_of(l0 as int));
                }
            }
            assert(s3.l1_of(l0 as int) == 0);
            assert forall|a0: int, a1: int| 0 <= a0 < 64 && 0 <= a1 < 64 implies
                #[trigger] s3.data_mask_at(a0, a1) == s2.data_mask_at(a0, a1) by {
                if a0 == l0 {
                    assert(s3.d_of(a0, a1) == 0);
                    assert(s2.d_of(a0, a1) == 0);
                }
            }
            assert forall|i: int| #[trigger] s3.has(i) == s2.has(i) by {
                if 0 <= i < MAX_CAPACITY {
                    lemma_index_parts(i);
                }
            }
            assert forall|a: int| 0 <= a < 64 implies #[trigger] s3.l0_ok(a) by {
                assert(s2.l0_ok(a));
                if a == l0 {
                    assert(!bit_at(s3.level0.mask, a as u64));
                } else {
                    assert(bit_at(s3.level0.mask, a as u64) == bit_at(s2.level0.mask, a as u64));
                }
            }
            assert forall|a0: int, a1: int| 0 <= a0 < 64 && 0 <= a1 < 64 implies #[trigger] s3.l1_ok(a0, a1) by {
                assert(s2.l1_ok(a0, a1));
                if a0 == l0 {
                    assert(s3.d_of(a0, a1) == 0);
                }
            }
            assert(s3.inj0()) by {
                assert forall|a: int, b: int| 0 <= a < 64 && 0 <= b < 64 && a != b && #[trigger] s3.l1_of(a) != 0 implies
                    s3.l1_of(a) != #[trigger] s3.l1_of(b) by {
                    assert(s2.l1_of(a) == s3.l1_of(a));
                    if b != l0 { assert(s2.l1_of(b) == s3.l1_of(b)); }
                }
            }
            assert(s3.inj1()) by {
                assert forall|a0: int, a1: int, b0: int, b1: int|
                    0 <= a0 < 64 && 0 <= a1 < 64 && 0 <= b0 < 64 && 0 <= b1 < 64 && (a0 != b0 || a1 != b1)
                    && #[trigger] s3.d_of(a0, a1) != 0 implies s3.d_of(a0, a1) != #[trigger] s3.d_of(b0, b1) by {
                    if a0 != l0 {
                        assert(s3.d_of(a0, a1) == s2.d_of(a0, a1));
                        if b0 != l0 { assert(s3.d_of(b0, b1) == s2.d_of(b0, b1)); } else { assert(s3.d_of(b0, b1) == 0); }
                    }
                }
            }
            assert forall|a0: int, a1: int|
                0 <= a0 < 64 && 0 <= a1 < 64 && #[trigger] s3.d_of(a0, a1) != 0
                implies s3.data.blocks@[s3.d_of(a0, a1)].mask != 0 by {
                if a0 != l0 {
                    assert(s3.d_of(a0, a1) == s2.d_of(a0, a1));
                }
            }
            assert forall|a: int| 0 <= a < 64 && #[trigger] s3.l1_of(a) != 0 implies s3.l1_block(a).mask != 0 by {}
            assert forall|x: int| 0 <= x < 64 && s3.level1.is_live(#[trigger] s2.l1_of(x)) implies s3.l1_of(x) == s2.l1_of(x) by {
                assert(s2.l0_ok(x));
            }
            Self::lemma_l1_reach(s2, s3, -1, 0);
            assert forall|x0: int, x1: int| 0 <= x0 < 64 && 0 <= x1 < 64 && s3.data.is_live(#[trigger] s2.d_of(x0, x1))
                implies s3.d_of(x0, x1) == s2.d_of(x0, x1) by {
                if x0 != l0 {
                    assert(s3.l1_block(x0) == s2.l1_block(x0));
                }
            }
            Self::lemma_data_reach(s2, s3, -1, 0, 0);
            assert(s3.wf());
            assert(s3@ =~= s0@.remove(index as int));
            lemma_remove_count(&s0, &s3, index as int);
        }
        existed
    }
}

impl BitSet {
    /// The data masks of `a` and `b` agree on every path except `(l0, l1)`,
    /// where `b` has `mask`.
    pub open spec fn masks_updated(a: &BitSet, b: &BitSet, l0: int, l1: int, mask: u64) -> bool {
        forall|a0: int, a1: int| 0 <= a0 < 64 && 0 <= a1 < 64 ==>
            #[trigger] b.data_mask_at(a0, a1) == if a0 == l0 && a1 == l1 { mask } else { a.data_mask_at(a0, a1) }
    }

    /// Sets the data mask on the path `(l0, l1)` to `mask`, allocating the
    /// blocks on the way if it is non-zero and releasing emptied blocks if it
    /// is zero. Every other data mask is kept.
    pub(crate) fn set_data_mask(&mut self, l0: usize, l1: usize, mask: u64)
        requires
            old(self).wf(),
            l0 < 64,
            l1 < 64,
        ensures
            final(self).wf(),
            Self::masks_updated(old(self), final(self), l0 as int, l1 as int, mask),
    {
        if mask != 0 {
            self.set_data_mask_nonzero(l0, l1, mask);
        } else {
            self.clear_data_mask(l0, l1);
        }
    }

    fn set_data_mask_nonzero(&mut self, l0: usize, l1: usize, mask: u64)
        requires
            old(self).wf(),
            l0 < 64,
            l1 < 64,
            mask != 0,
        ensures
            final(self).wf(),
            Self::masks_updated(old(self), final(self), l0 as int, l1 as int, mask),
    {
        let ghost s0 = *self;
        let m = self.get_or_insert_data_block(l0, l1);
        let ghost s1 = *self;
        let ghost data_before = self.data;
        proof { assert(s1.l1_ok(l0 as int, l1 as int)); }
        let blk = &mut self.data.blocks[m];
        blk.mask = mask;
        proof {
            lemma_level_update_live(data_before, self.data, m as int);
            let s2 = *self;
            assert forall|a0: int, a1: int| 0 <= a0 < 64 && 0 <= a1 < 64 && (a0 != l0 || a1 != l1) implies
                #[trigger] s2.data_mask_at(a0, a1) == s1.data_mask_at(a0, a1) by {
                assert(s1.l1_ok(a0, a1));
                if s1.d_of(a0, a1) != 0 {
                    assert(s1.d_of(l0 as int, l1 as int) != s1.d_of(a0, a1));
                }
            }
            assert forall|a: int| 0 <= a < 64 implies #[trigger] s2.l0_ok(a) by { assert(s1.l0_ok(a)); }
            assert forall|a0: int, a1: int| 0 <= a0 < 64 && 0 <= a1 < 64 implies #[trigger] s2.l1_ok(a0, a1) by {
                assert(s1.l1_ok(a0, a1));
            }
            assert forall|a0: int, a1: int|
                0 <= a0 < 64 && 0 <= a1 < 64 && #[trigger] s2.d_of(a0, a1) != 0
                implies s2.data.blocks@[s2.d_of(a0, a1)].mask != 0 by {
                if a0 != l0 || a1 != l1 {
                    assert(s2.data_mask_at(a0, a1) == s1.data_mask_at(a0, a1));
                }
            }
            assert(s2.inj0()) by {
                assert forall|a: int, b: int| 0 <= a < 64 && 0 <= b < 64 && a != b && #[trigger] s2.l1_of(a) != 0 implies
                    s2.l1_of(a) != #[trigger] s2.l1_of(b) by {
                    assert(s1.l1_of(a) == s2.l1_of(a));
                    assert(s1.l1_of(b) == s2.l1_of(b));
                }
            }
            assert(s2.inj1()) by {
                assert forall|a0: int, a1: int, b0: int, b1: int|
                    0 <= a0 < 64 && 0 <= a1 < 64 && 0 <= b0 < 64 && 0 <= b1 < 64 && (a0 != b0 || a1 != b1)
                    && #[trigger] s2.d_of(a0, a1) != 0 implies s2.d_of(a0, a1) != #[trigger] s2.d_of(b0, b1) by {
                    assert(s1.d_of(a0, a1) == s2.d_of(a0, a1));
                    assert(s1.d_of(b0, b1) == s2.d_of(b0, b1));
                }
            }
            assert(s2.shape_ok());
            assert forall|a: int| 0 <= a < 64 && #[trigger] s2.l1_of(a) != 0 implies s2.l1_block(a).mask != 0 by {
                assert(s1.l1_block(a) == s2.l1_block(a));
                if a == l0 {
                    assert(s1.l1_ok(l0 as int, l1 as int));
                    lemma_bit_nonzero(s1.l1_block(a).mask, l1 as u64);
                }
            }
            Self::lemma_l1_reach(s1, s2, -1, 0);
            Self::lemma_data_reach(s1, s2, -1, 0, 0);
            assert(s2.wf());
            assert(s2.data_mask_at(l0 as int, l1 as int) == mask);
        }
    }

    fn clear_data_mask(&mut self, l0: usize, l1: usize)
        requires
            old(self).wf(),
            l0 < 64,
            l1 < 64,
        ensures
            final(self).wf(),
            Self::masks_updated(old(self), final(self), l0 as int, l1 as int, 0),
    {
        let ghost s0 = *self;
        proof { lemma_bit_zero(); }
        let (k, m) = self.get_block_indices(l0, l1);
        if m == 0 {
            proof {
                assert(s0.l1_ok(l0 as int, l1 as int));
                assert(s0.data.blocks@[0].is_zeroed());
            }
            return;
        }
        proof {
            assert(s0.l0_ok(l0 as int));
            assert(s0.l1_ok(l0 as int, l1 as int));
        }
        let ghost data_before = self.data;
        let blk = &mut self.data.blocks[m];
        blk.mask = 0;
        proof {
            lemma_level_update_live(data_before, self.data, m as int);
        }
        let ghost s1 = *self;
        proof {
            assert forall|a0: int, a1: int| 0 <= a0 < 64 && 0 <= a1 < 64 && (a0 != l0 || a1 != l1) implies
                #[trigger] s1.data_mask_at(a0, a1) == s0.data_mask_at(a0, a1) by {
                assert(s0.l1_ok(a0, a1));
                if s0.d_of(a0, a1) != 0 {
                    assert(s0.d_of(l0 as int, l1 as int) != s0.d_of(a0, a1));
                }
            }
            lemma_inj_transfer(s0, s1);
            assert forall|a: int| 0 <= a < 64 implies #[trigger] s1.l0_ok(a) by { assert(s0.l0_ok(a)); }
            assert forall|a0: int, a1: int| 0 <= a0 < 64 && 0 <= a1 < 64 implies #[trigger] s1.l1_ok(a0, a1) by {
                assert(s0.l1_ok(a0, a1));
            }
        }
        // The data block became empty: release it and unlink it from level 1.
        self.data.remove_empty_block_unchecked(m);
        let ghost l1_before = self.level1;
        let blk1 = &mut self.level1.blocks[k];
        blk1.remove_unchecked(l1);
        proof {
            lemma_level_update_live(l1_before, self.level1, k as int);
        }
        let ghost s2 = *self;
        proof {
            assert forall|a: int| 0 <= a < 64 && a != l0 implies s2.l1_block(a) == s0.l1_block(a) by {
                assert(s0.l0_ok(a));
                if s0.l1_of(a) != 0 {
                    assert(s0.l1_of(a) != s0.l1_of(l0 as int));
                }
            }
            assert forall|a1: int| 0 <= a1 < 64 && a1 != l1 implies s2.d_of(l0 as int, a1) == s0.d_of(l0 as int, a1) by {}
            assert(s2.d_of(l0 as int, l1 as int) == 0);
            assert forall|a0: int, a1: int| 0 <= a0 < 64 && 0 <= a1 < 64 && (a0 != l0 || a1 != l1) implies
                #[trigger] s2.data_mask_at(a0, a1) == s0.data_mask_at(a0, a1) by {
                assert(s0.l1_ok(a0, a1));
                assert(s2.d_of(a0, a1) == s0.d_of(a0, a1));
                if s0.d_of(a0, a1) != 0 {
                    assert(s0.d_of(l0 as int, l1 as int) != s0.d_of(a0, a1));
                    assert(s2.data.blocks@[s0.d_of(a0, a1)] == s1.data.blocks@[s0.d_of(a0, a1)]);
                } else {
                    assert(s2.data.blocks@[0] == s1.data.blocks@[0]);
                }
                assert(s1.data_mask_at(a0, a1) == s0.data_mask_at(a0, a1));
            }
            assert(s2.data_mask_at(l0 as int, l1 as int) == 0) by {
                assert(s2.data.blocks@[0].is_zeroed());
            }
            assert forall|a: int| 0 <= a < 64 implies #[trigger] s2.l0_ok(a) by { assert(s0.l0_ok(a)); }
            assert forall|a0: int, a1: int| 0 <= a0 < 64 && 0 <= a1 < 64 implies #[trigger] s2.l1_ok(a0, a1) by {
                assert(s0.l1_ok(a0, a1));
                if a0 == l0 {
                    if a1 == l1 {
                        assert(!bit_at(s2.l1_block(a0).mask, a1 as u64));
                    } else {
                        assert(bit_at(s2.l1_block(a0).mask, a1 as u64) == bit_at(s0.l1_block(a0).mask, a1 as u64));
                        if s0.d_of(a0, a1) != 0 {
                            assert(s0.d_of(l0 as int, l1 as int) != s0.d_of(a0, a1));
                        }
                    }
                } else {
                    if s0.d_of(a0, a1) != 0 {
                        assert(s0.d_of(l0 as int, l1 as int) != s0.d_of(a0, a1));
                    }
                }
            }
            assert(s2.inj0()) by {
                assert forall|a: int, b: int| 0 <= a < 64 && 0 <= b < 64 && a != b && #[trigger] s2.l1_of(a) != 0 implies
                    s2.l1_of(a) != #[trigger] s2.l1_of(b) by {
                    assert(s0.l1_of(a) == s2.l1_of(a));
                    assert(s0.l1_of(b) == s2.l1_of(b));
                }
            }
            assert(s2.inj1()) by {
                assert forall|a0: int, a1: int, b0: int, b1: int|
                    0 <= a0 < 64 && 0 <= a1 < 64 && 0 <= b0 < 64 && 0 <= b1 < 64 && (a0 != b0 || a1 != b1)
                    && #[trigger] s2.d_of(a0, a1) != 0 implies s2.d_of(a0, a1) != #[trigger] s2.d_of(b0, b1) by {
                    if a0 == l0 && a1 == l1 {
                    } else {
                        assert(s2.d_of(a0, a1) == s0.d_of(a0, a1));
                        if b0 == l0 && b1 == l1 {
                        } else {
                            assert(s2.d_of(b0, b1) == s0.d_of(b0, b1));
                        }
                    }
                }
            }
            assert forall|a0: int, a1: int|
                0 <= a0 < 64 && 0 <= a1 < 64 && #[trigger] s2.d_of(a0, a1) != 0
                implies s2.data.blocks@[s2.d_of(a0, a1)].mask != 0 by {
                if a0 != l0 || a1 != l1 {
                    assert(s2.data_mask_at(a0, a1) == s0.data_mask_at(a0, a1));
                    assert(s2.d_of(a0, a1) == s0.d_of(a0, a1));
                }
            }
            assert forall|a: int| 0 <= a < 64 && a != l0 && #[trigger] s2.l1_of(a) != 0 implies s2.l1_block(a).mask != 0 by {}
            Self::lemma_l1_reach(s0, s2, -1, 0);
            assert forall|x0: int, x1: int| 0 <= x0 < 64 && 0 <= x1 < 64 && s2.data.is_live(#[trigger] s0.d_of(x0, x1))
                implies s2.d_of(x0, x1) == s0.d_of(x0, x1) by {
                if x0 != l0 {
                    assert(s2.l1_block(x0) == s0.l1_block(x0));
                }
            }
            Self::lemma_data_reach(s0, s2, -1, 0, 0);
        }
        if self.level1.blocks[k].mask != 0 {
            proof {
                assert(s2.wf());
            }
            return;
        }
        // The level-1 block became empty: release it and unlink it from level 0.
        proof {
            assert forall|j: int| 0 <= j < 64 implies #[trigger] s2.level1.blocks@[k as int].block_indices@[j] == 0 by {
                assert(s2.l1_ok(l0 as int, j));
            }
        }
        self.level1.remove_empty_block_unchecked(k);
        self.level0.remove_unchecked(l0);
        proof {
            let s3 = *self;
            assert forall|a: int| 0 <= a < 64 && a != l0 implies s3.l1_block(a) == s2.l1_block(a) by {
                assert(s2.l0_ok(a));
                if s2.l1_of(a) != 0 {
                    assert(s2.l1_of(a) != s2.l1_of(l0 as int));
                }
            }
            assert(s3.l1_of(l0 as int) == 0);
            assert forall|a0: int, a1: int| 0 <= a0 < 64 && 0 <= a1 < 64 implies
                #[trigger] s3.data_mask_at(a0, a1) == s2.data_mask_at(a0, a1) by {
                if a0 == l0 {
                    assert(s3.d_of(a0, a1) == 0);
                    assert(s2.d_of(a0, a1) == 0);
                }
            }
            assert forall|a: int| 0 <= a < 64 implies #[trigger] s3.l0_ok(a) by {
                assert(s2.l0_ok(a));
                if a == l0 {
                    assert(!bit_at(s3.level0.mask, a as u64));
                } else {
                    assert(bit_at(s3.level0.mask, a as u64) == bit_at(s2.level0.mask, a as u64));
                }
            }
            assert forall|a0: int, a1: int| 0 <= a0 < 64 && 0 <= a1 < 64 implies #[trigger] s3.l1_ok(a0, a1) by {
                assert(s2.l1_ok(a0, a1));
                if a0 == l0 {
                    assert(s3.d_of(a0, a1) == 0);
                }
            }
            assert(s3.inj0()) by {
                assert forall|a: int, b: int| 0 <= a < 64 && 0 <= b < 64 && a != b && #[trigger] s3.l1_of(a) != 0 implies
                    s3.l1_of(a) != #[trigger] s3.l1_of(b) by {
                    assert(s2.l1_of(a) == s3.l1_of(a));
                    if b != l0 { assert(s2.l1_of(b) == s3.l1_of(b)); }
                }
            }
            assert(s3.inj1()) by {
                assert forall|a0: int, a1: int, b0: int, b1: int|
                    0 <= a0 < 64 && 0 <= a1 < 64 && 0 <= b0 < 64 && 0 <= b1 < 64 && (a0 != b0 || a1 != b1)
                    && #[trigger] s3.d_of(a0, a1) != 0 implies s3.d_of(a0, a1) != #[trigger] s3.d_of(b0, b1) by {
                    if a0 != l0 {
                        assert(s3.d_of(a0, a1) == s2.d_of(a0, a1));
                        if b0 != l0 { assert(s3.d_of(b0, b1) == s2.d_of(b0, b1)); } else { assert(s3.d_of(b0, b1) == 0); }
                    }
                }
            }
            assert forall|a0: int, a1: int|
                0 <= a0 < 64 && 0 <= a1 < 64 && #[trigger] s3.d_of(a0, a1) != 0
                implies s3.data.blocks@[s3.d_of(a0, a1)].mask != 0 by {
                if a0 != l0 {
                    assert(s3.d_of(a0, a1) == s2.d_of(a0, a1));
                }
            }
            assert forall|a: int| 0 <= a < 64 && #[trigger] s3.l1_of(a) != 0 implies s3.l1_block(a).mask != 0 by {}
            assert forall|x: int| 0 <= x < 64 && s3.level1.is_live(#[trigger] s2.l1_of(x)) implies s3.l1_of(x) == s2.l1_of(x) by {
                assert(s2.l0_ok(x));
            }
            Self::lemma_l1_reach(s2, s3, -1, 0);
            assert forall|x0: int, x1: int| 0 <= x0 < 64 && 0 <= x1 < 64 && s3.data.is_live(#[trigger] s2.d_of(x0, x1))
                implies s3.d_of(x0, x1) == s2.d_of(x0, x1) by {
                if x0 != l0 {
                    assert(s3.l1_block(x0) == s2.l1_block(x0));
                }
            }
            Self::lemma_data_reach(s2, s3, -1, 0, 0);
            assert(s3.wf());
        }
    }
}

impl BitSet {
    /// Membership of `i` read off the data mask on its path.
    proof fn lemma_has_by_mask(a: &BitSet, i: int)
        ensures
            a@.contains(i) == (0 <= i < MAX_CAPACITY && bit_of(a.data_mask_at(idx0(i), idx1(i)), idx2(i))),
            0 <= i < MAX_CAPACITY ==> 0 <= idx0(i) < 64 && 0 <= idx1(i) < 64 && 0 <= idx2(i) < 64,
    {
        if 0 <= i < MAX_CAPACITY {
            lemma_index_parts(i);
        }
    }

    /// Inserts the indices of `block`: its raised bits, counted from the
    /// start of the 64-index block that holds `block.start_index`.
    pub fn insert_block(&mut self, block: DataBlock)
        requires
            old(self).wf(),
            block.bit_block != 0 ==> block.start_index + 64 <= MAX_CAPACITY,
        ensures
            final(self).wf(),
            final(self)@ == old(self)@.union(Set::new(|i: int|
                i / 64 == block.start_index as int / 64 && bit_of(block.bit_block, i % 64))),
            final(self).data_blocks_used() == 1 + data_block_keys(final(self)@).len(),
            final(self).hi_blocks_used() == 1 + level1_block_keys(final(self)@).len(),
    {
        let ghost s0 = *self;
        let ghost added = Set::new(|i: int| i / 64 == block.start_index as int / 64 && bit_of(block.bit_block, i % 64));
        if block.bit_block == 0 {
            proof {
                lemma_bit_zero();
                assert(s0@.union(added) =~= s0@);
                lemma_blocks_in_use(&s0);
            }
            return;
        }
        let (level0_index, level1_index, _) = level_indices(block.start_index);
        proof { lemma_index_parts(block.start_index as int); }
        let this_data = LevelMasks::data_mask(self, level0_index, level1_index);
        self.set_data_mask(level0_index, level1_index, this_data | block.bit_block);
        proof {
            let s1 = *self;
            crate::bit_utils::lemma_bit_ops(this_data, block.bit_block);
            let k = block.start_index as int / 64;
            crate::iter::lemma_index_key(block.start_index as int);
            assert(0 <= k < 4096) by (nonlinear_arith)
                requires k == block.start_index as int / 64, block.start_index + 64 <= MAX_CAPACITY;
            crate::iter::lemma_key_parts(k);
            assert(level0_index == k / 64 && level1_index == k % 64);
            assert forall|i: int| #[trigger] s1@.contains(i) == s0@.union(added).contains(i) by {
                Self::lemma_has_by_mask(&s0, i);
                Self::lemma_has_by_mask(&s1, i);
                if 0 <= i < MAX_CAPACITY {
                    crate::iter::lemma_index_key(i);
                    crate::iter::lemma_key_parts(i / 64);
                    let a0 = idx0(i);
                    let a1 = idx1(i);
                    let a2 = idx2(i);
                    assert(s1.data_mask_at(a0, a1) == if a0 == level0_index && a1 == level1_index {
                        this_data | block.bit_block } else { s0.data_mask_at(a0, a1) });
                    if i / 64 != k {
                        assert(idx0(i) != level0_index || idx1(i) != level1_index);
                        assert(!added.contains(i));
                    } else {
                        assert(a0 == level0_index && a1 == level1_index);
                        assert(bit_at(this_data | block.bit_block, a2 as u64)
                            == (bit_at(this_data, a2 as u64) || bit_at(block.bit_block, a2 as u64)));
                        assert(this_data == s0.data_mask_at(a0, a1));
                        assert(added.contains(i) == bit_of(block.bit_block, a2));
                    }
                } else if i / 64 == k {
                    assert(0 <= i < MAX_CAPACITY) by (nonlinear_arith) requires i / 64 == k, 0 <= k < 4096;
                }
            }
            assert(s1@ =~= s0@.union(added));
            lemma_blocks_in_use(&s1);
        }
    }

    /// Sets every index of `first..=last` in (`fill`) or out of the set,
    /// one data block at a time; emptied blocks are released.
    pub(crate) fn fill_range(&mut self, first: usize, last: usize, fill: bool)
        requires
            old(self).wf(),
            first <= last < MAX_CAPACITY,
        ensures
            final(self).wf(),
            final(self)@ == if fill {
                old(self)@.union(index_range(first as int, last as int))
            } else {
                old(self)@.difference(index_range(first as int, last as int))
            },
    {
        let ghost s0 = *self;
        let k_first = first / 64;
        let k_last = last / 64;
        proof {
            crate::iter::lemma_index_key(first as int);
            crate::iter::lemma_index_key(last as int);
            assert(k_first <= k_last) by (nonlinear_arith) requires first <= last, k_first == first / 64, k_last == last / 64;
        }
        let mut k = k_first;
        while k <= k_last
            invariant
                self.wf(),
                first <= last < MAX_CAPACITY,
                k_first == first / 64,
                k_last == last / 64,
                k_last < 4096,
                k_first <= k <= k_last + 1,
                self@ == if fill {
                    s0@.union(index_range(first as int, last as int).filter(|i: int| i / 64 < k))
                } else {
                    s0@.difference(index_range(first as int, last as int).filter(|i: int| i / 64 < k))
                },
            decreases k_last + 1 - k,
        {
            let ghost before = *self;
            let lo: usize = if k == k_first { first % 64 } else { 0 };
            let hi: usize = if k == k_last { last % 64 } else { 63 };
            proof {
                if k == k_first && k == k_last {
                    assert(first % 64 <= last % 64) by (nonlinear_arith)
                        requires first <= last, first / 64 == last / 64,
                            first == (first / 64) * 64 + first % 64, last == (last / 64) * 64 + last % 64;
                }
            }
            let l0 = k / 64;
            let l1 = k % 64;
            let cur = LevelMasks::data_mask(self, l0, l1);
            let mut word = vec![cur];
            let ghost w0 = word@;
            proof { assert(w0.len() == 1 && w0[0] == cur); }
            if fill {
                fill_array_bits_unchecked::<true>(word.as_mut_slice(), lo, hi);
            } else {
                fill_array_bits_unchecked::<false>(word.as_mut_slice(), lo, hi);
            }
            let new_mask = word[0];
            self.set_data_mask(l0, l1, new_mask);
            proof {
                let part = index_range(first as int, last as int);
                let done = part.filter(|i: int| i / 64 < k);
                let next = part.filter(|i: int| i / 64 < k + 1);
                crate::iter::lemma_key_parts(k as int);
                assert forall|j: int| 0 <= j < 64 implies #[trigger] bit_of(new_mask, j) == if lo <= j <= hi { fill } else {
                    bit_of(cur, j) } by {
                    assert(j / 64 == 0 && j % 64 == j);
                    assert(crate::bit_utils::array_bit(word@, j) == bit_of(new_mask, j));
                    assert(crate::bit_utils::array_bit(w0, j) == bit_of(cur, j));
                }
                assert forall|i: int| #[trigger] self@.contains(i) == (if fill {
                    s0@.union(next) } else { s0@.difference(next) }).contains(i) by {
                    Self::lemma_has_by_mask(&before, i);
                    Self::lemma_has_by_mask(self, i);
                    if 0 <= i < MAX_CAPACITY {
                        crate::iter::lemma_index_key(i);
                        if i / 64 == k {
                            assert(idx0(i) == l0 && idx1(i) == l1);
                            assert(lo <= i % 64 <= hi <==> first <= i <= last) by (nonlinear_arith)
                                requires i / 64 == k, k_first <= k <= k_last,
                                    lo == if k == k_first { first % 64 } else { 0 },
                                    hi == if k == k_last { last % 64 } else { 63 },
                                    i == (i / 64) * 64 + i % 64, 0 <= i % 64 < 64,
                                    first == k_first * 64 + first % 64, 0 <= first % 64 < 64,
                                    last == k_last * 64 + last % 64, 0 <= last % 64 < 64;
                            assert(next.contains(i) == (first <= i <= last));
                            assert(!done.contains(i));
                        } else {
                            assert(idx0(i) != l0 || idx1(i) != l1);
                            assert(next.contains(i) == done.contains(i));
                        }
                    } else {
                        if part.contains(i) {
                            assert(false);
                        }
                    }
                }
                assert(self@ =~= if fill { s0@.union(next) } else { s0@.difference(next) });
            }
            k += 1;
        }
        proof {
            let part = index_range(first as int, last as int);
            assert forall|i: int| #[trigger] part.contains(i) implies i / 64 < k by {
                assert(i / 64 <= last / 64) by (nonlinear_arith) requires i <= last, 0 <= first <= i;
            }
            assert(part.filter(|i: int| i / 64 < k) =~= part);
        }
    }

    /// In-place union with any bitset.
    pub fn unite<S: LevelMasks>(&mut self, other: S)
        requires
            old(self).wf(),
            other.spec_wf(),
        ensures
            final(self).wf(),
            final(self)@ == old(self)@.union(spec_contents(&other)),
            final(self).data_blocks_used() == 1 + data_block_keys(final(self)@).len(),
            final(self).hi_blocks_used() == 1 + level1_block_keys(final(self)@).len(),
    {
        let ghost s0 = *self;
        proof { other.lemma_hierarchy(); lemma_bit_zero(); }
        let other_level0_mask = other.level0_mask();
        let mut level0_iter = one_bits_iter(other_level0_mask);
        // Traverse level 0 of `other`
        while level0_iter.element != 0
            invariant
                self.wf(),
                other.spec_wf(),
                other_level0_mask == other.spec_level0_mask(),
                forall|j: u64| j < 64 ==> #[trigger] bit_at(level0_iter.element, j) ==> bit_at(other_level0_mask, j),
                forall|a0: int, a1: int| 0 <= a0 < 64 && 0 <= a1 < 64 ==> #[trigger] self.data_mask_at(a0, a1)
                    == if bit_of(other_level0_mask, a0) && !bit_of(level0_iter.element, a0) {
                        s0.data_mask_at(a0, a1) | other.spec_data_mask(a0, a1)
                    } else {
                        s0.data_mask_at(a0, a1)
                    },
            decreases level0_iter.element,
        {
            let ghost before0 = level0_iter.element;
            let ghost s_outer = *self;
            let level0_index = level0_iter.next().unwrap();
            let ghost after0 = level0_iter.element;
            proof {
                lemma_lowest_bit_props(before0);
            }
            let other_level1_mask = other.level1_mask(level0_index);
            let mut level1_iter = one_bits_iter(other_level1_mask);
            // Traverse level 1 of `other` under `level0_index`
            while level1_iter.element != 0
                invariant
                    self.wf(),
                    other.spec_wf(),
                    level0_index < 64,
                    other_level1_mask == other.spec_level1_mask(level0_index as int),
                    forall|j: u64| j < 64 ==> #[trigger] bit_at(level1_iter.element, j) ==> bit_at(other_level1_mask, j),
                    forall|a0: int, a1: int| 0 <= a0 < 64 && 0 <= a1 < 64 ==> #[trigger] self.data_mask_at(a0, a1)
                        == if a0 == level0_index && bit_of(other_level1_mask, a1) && !bit_of(level1_iter.element, a1) {
                            s_outer.data_mask_at(a0, a1) | other.spec_data_mask(a0, a1)
                        } else {
                            s_outer.data_mask_at(a0, a1)
                        },
                decreases level1_iter.element,
            {
                let ghost before1 = level1_iter.element;
                let ghost s_inner = *self;
                let level1_index = level1_iter.next().unwrap();
                proof { lemma_lowest_bit_props(before1); }
                let other_data = other.data_mask(level0_index, level1_index);
                let this_data = LevelMasks::data_mask(self, level0_index, level1_index);
                self.set_data_mask(level0_index, level1_index, this_data | other_data);
                proof {
                    assert forall|a0: int, a1: int| 0 <= a0 < 64 && 0 <= a1 < 64 implies #[trigger] self.data_mask_at(a0, a1)
                        == if a0 == level0_index && bit_of(other_level1_mask, a1) && !bit_of(level1_iter.element, a1) {
                            s_outer.data_mask_at(a0, a1) | other.spec_data_mask(a0, a1)
                        } else {
                            s_outer.data_mask_at(a0, a1)
                        } by {
                        assert(s_inner.data_mask_at(a0, a1) == if a0 == level0_index && bit_of(other_level1_mask, a1) && !bit_of(before1, a1) {
                            s_outer.data_mask_at(a0, a1) | other.spec_data_mask(a0, a1)
                        } else {
                            s_outer.data_mask_at(a0, a1)
                        });
                        if a0 == level0_index && a1 == level1_index {
                            assert(bit_at(before1, level1_index as u64));
                        } else if a0 == level0_index {
                            assert(bit_at(level1_iter.element, a1 as u64) == bit_at(before1, a1 as u64));
                        }
                    }
                }
            }
            proof {
                other.lemma_hierarchy();
                lemma_bit_zero();
                assert forall|a0: int, a1: int| 0 <= a0 < 64 && 0 <= a1 < 64 implies #[trigger] self.data_mask_at(a0, a1)
                    == if bit_of(other_level0_mask, a0) && !bit_of(level0_iter.element, a0) {
                        s0.data_mask_at(a0, a1) | other.spec_data_mask(a0, a1)
                    } else {
                        s0.data_mask_at(a0, a1)
                    } by {
                    assert(s_outer.data_mask_at(a0, a1) == if bit_of(other_level0_mask, a0) && !bit_of(before0, a0) {
                        s0.data_mask_at(a0, a1) | other.spec_data_mask(a0, a1)
                    } else {
                        s0.data_mask_at(a0, a1)
                    });
                    if a0 == level0_index {
                        assert(bit_at(before0, level0_index as u64));
                        if !bit_of(other_level1_mask, a1) {
                            assert(other.spec_data_mask(a0, a1) == 0);
                            let x = s0.data_mask_at(a0, a1);
                            assert(x | 0u64 == x) by (bit_vector);
                        }
                    } else {
                        assert(bit_at(level0_iter.element, a0 as u64) == bit_at(before0, a0 as u64));
                    }
                }
            }
        }
        proof {
            let s1 = *self;
            assert forall|i: int| #[trigger] s1@.contains(i) == s0@.union(spec_contents(&other)).contains(i) by {
                Self::lemma_has_by_mask(&s0, i);
                Self::lemma_has_by_mask(&s1, i);
                if 0 <= i < MAX_CAPACITY {
                    let a0 = idx0(i);
                    let a1 = idx1(i);
                    crate::bit_utils::lemma_bit_ops(s0.data_mask_at(a0, a1), other.spec_data_mask(a0, a1));
                    if !bit_of(other_level0_mask, a0) {
                        assert(other.spec_data_mask(a0, a1) == 0);
                    }
                }
            }
            assert(s1@ =~= s0@.union(spec_contents(&other)));
            lemma_blocks_in_use(&s1);
        }
    }
}

impl BitSet {
    /// In-place intersection with any bitset.
    ///
    /// Level-1 blocks of `self` outside the level-0 mask of `other` are
    /// emptied, then each remaining data block is intersected; emptied
    /// blocks are released.
    pub fn intersect<S: LevelMasks>(&mut self, other: S)
        requires
            old(self).wf(),
            other.spec_wf(),
        ensures
            final(self).wf(),
            final(self)@ == old(self)@.intersect(spec_contents(&other)),
            final(self).data_blocks_used() == 1 + data_block_keys(final(self)@).len(),
            final(self).hi_blocks_used() == 1 + level1_block_keys(final(self)@).len(),
    {
        let ghost s0 = *self;
        proof { lemma_bit_zero(); }
        let other_level0_mask = other.level0_mask();
        let this_level0_mask = self.level0.mask;
        let mut level0_iter = one_bits_iter(this_level0_mask);
        while level0_iter.element != 0
            invariant
                self.wf(),
                other.spec_wf(),
                other_level0_mask == other.spec_level0_mask(),
                this_level0_mask == s0.level0_mask_spec(),
                forall|j: u64| j < 64 ==> #[trigger] bit_at(level0_iter.element, j) ==> bit_at(this_level0_mask, j),
                forall|a0: int, a1: int| 0 <= a0 < 64 && 0 <= a1 < 64 ==> #[trigger] self.data_mask_at(a0, a1)
                    == if bit_of(this_level0_mask, a0) && !bit_of(level0_iter.element, a0) {
                        s0.data_mask_at(a0, a1) & other.spec_data_mask(a0, a1)
                    } else {
                        s0.data_mask_at(a0, a1)
                    },
            decreases level0_iter.element,
        {
            let ghost before0 = level0_iter.element;
            let ghost s_outer = *self;
            let level0_index = level0_iter.next().unwrap();
            proof {
                lemma_lowest_bit_props(before0);
                other.lemma_hierarchy();
            }
            let in_other = get_bit_unchecked(other_level0_mask, level0_index);
            let other_level1_mask = if in_other { other.level1_mask(level0_index) } else { 0 };
            let this_level1_mask = LevelMasks::level1_mask(self, level0_index);
            let mut level1_iter = one_bits_iter(this_level1_mask);
            while level1_iter.element != 0
                invariant
                    self.wf(),
                    other.spec_wf(),
                    level0_index < 64,
                    other_level1_mask == other.spec_level1_mask(level0_index as int),
                    this_level1_mask == s_outer.level1_mask_at(level0_index as int),
                    forall|j: u64| j < 64 ==> #[trigger] bit_at(level1_iter.element, j) ==> bit_at(this_level1_mask, j),
                    forall|a0: int, a1: int| 0 <= a0 < 64 && 0 <= a1 < 64 ==> #[trigger] self.data_mask_at(a0, a1)
                        == if a0 == level0_index && bit_of(this_level1_mask, a1) && !bit_of(level1_iter.element, a1) {
                            s_outer.data_mask_at(a0, a1) & other.spec_data_mask(a0, a1)
                        } else {
                            s_outer.data_mask_at(a0, a1)
                        },
                decreases level1_iter.element,
            {
                let ghost before1 = level1_iter.element;
                let ghost s_inner = *self;
                let level1_index = level1_iter.next().unwrap();
                proof {
                    lemma_lowest_bit_props(before1);
                    other.lemma_hierarchy();
                }
                let other_data = if get_bit_unchecked(other_level1_mask, level1_index) {
                    other.data_mask(level0_index, level1_index)
                } else {
                    0
                };
                let this_data = LevelMasks::data_mask(self, level0_index, level1_index);
                let new_data = this_data & other_data;
                if new_data != this_data {
                    self.set_data_mask(level0_index, level1_index, new_data);
                }
                proof {
                    assert(other_data == other.spec_data_mask(level0_index as int, level1_index as int));
                    assert(this_data == s_outer.data_mask_at(level0_index as int, level1_index as int)) by {
                        assert(bit_at(before1, level1_index as u64));
                    }
                    assert forall|a0: int, a1: int| 0 <= a0 < 64 && 0 <= a1 < 64 implies #[trigger] self.data_mask_at(a0, a1)
                        == if a0 == level0_index && bit_of(this_level1_mask, a1) && !bit_of(level1_iter.element, a1) {
                            s_outer.data_mask_at(a0, a1) & other.spec_data_mask(a0, a1)
                        } else {
                            s_outer.data_mask_at(a0, a1)
                        } by {
                        assert(s_inner.data_mask_at(a0, a1) == if a0 == level0_index && bit_of(this_level1_mask, a1) && !bit_of(before1, a1) {
                            s_outer.data_mask_at(a0, a1) & other.spec_data_mask(a0, a1)
                        } else {
                            s_outer.data_mask_at(a0, a1)
                        });
                        if a0 == level0_index && a1 == level1_index {
                            assert(bit_at(before1, level1_index as u64));
                        } else if a0 == level0_index {
                            assert(bit_at(level1_iter.element, a1 as u64) == bit_at(before1, a1 as u64));
                        }
                    }
                }
            }
            proof {
                other.lemma_hierarchy();
                s_outer.lemma_hierarchy();
                lemma_bit_zero();
                assert forall|a0: int, a1: int| 0 <= a0 < 64 && 0 <= a1 < 64 implies #[trigger] self.data_mask_at(a0, a1)
                    == if bit_of(this_level0_mask, a0) && !bit_of(level0_iter.element, a0) {
                        s0.data_mask_at(a0, a1) & other.spec_data_mask(a0, a1)
                    } else {
                        s0.data_mask_at(a0, a1)
                    } by {
                    assert(s_outer.data_mask_at(a0, a1) == if bit_of(this_level0_mask, a0) && !bit_of(before0, a0) {
                        s0.data_mask_at(a0, a1) & other.spec_data_mask(a0, a1)
                    } else {
                        s0.data_mask_at(a0, a1)
                    });
                    if a0 == level0_index {
                        assert(bit_at(before0, level0_index as u64));
                        if !bit_of(this_level1_mask, a1) {
                            if s_outer.spec_data_mask(a0, a1) != 0 {
                                assert(bit_of(s_outer.spec_level1_mask(a0), a1));
                            }
                            assert(s_outer.data_mask_at(a0, a1) == 0);
                            let y = other.spec_data_mask(a0, a1);
                            assert(0u64 & y == 0u64) by (bit_vector);
                        }
                    } else {
                        assert(bit_at(level0_iter.element, a0 as u64) == bit_at(before0, a0 as u64));
                    }
                }
            }
        }
        proof {
            let s1 = *self;
            s0.lemma_hierarchy();
            assert forall|i: int| #[trigger] s1@.contains(i) == s0@.intersect(spec_contents(&other)).contains(i) by {
                Self::lemma_has_by_mask(&s0, i);
                Self::lemma_has_by_mask(&s1, i);
                if 0 <= i < MAX_CAPACITY {
                    let a0 = idx0(i);
                    let a1 = idx1(i);
                    crate::bit_utils::lemma_bit_ops(s0.data_mask_at(a0, a1), other.spec_data_mask(a0, a1));
                    if !bit_of(this_level0_mask, a0) {
                        assert(s0.data_mask_at(a0, a1) == 0);
                    }
                }
            }
            assert(s1@ =~= s0@.intersect(spec_contents(&other)));
            lemma_blocks_in_use(&s1);
        }
    }

    /// Materialize any bitset: a new [BitSet] with the indices of `bitset`.
    pub fn from<B: LevelMasks>(bitset: B) -> (r: BitSet)
        requires
            bitset.spec_wf(),
        ensures
            r.wf(),
            r@ == spec_contents(&bitset),
            r.data_blocks_used() == 1 + data_block_keys(r@).len(),
            r.hi_blocks_used() == 1 + level1_block_keys(r@).len(),
    {
        let mut this = BitSet::new();
        this.unite(bitset);
        proof { assert(Set::<int>::empty().union(spec_contents(&bitset)) =~= spec_contents(&bitset)); }
        this
    }

    /// Union of two bitsets, uniting the smaller into the bigger one.
    ///
    /// Same as [unite](Self::unite), but picks the direction that inserts
    /// fewer data blocks.
    pub fn into_union(self, other: Self) -> (r: Self)
        requires
            self.wf(),
            other.wf(),
        ensures
            r.wf(),
            r@ == self@.union(other@),
    {
        // Unite into bigger bitset.
        if self.data.len() > other.data.len() {
            let mut left = self;
            left.unite(&other);
            left
        } else {
            let mut left = other;
            left.unite(&self);
            proof { assert(other@.union(self@) =~= self@.union(other@)); }
            left
        }
    }

    /// Intersection of two bitsets, intersecting the bigger into the smaller one.
    ///
    /// Same as [intersect](Self::intersect), but picks the direction that
    /// removes fewer data blocks.
    pub fn into_intersection(self, other: Self) -> (r: Self)
        requires
            self.wf(),
            other.wf(),
        ensures
            r.wf(),
            r@ == self@.intersect(other@),
    {
        // Intersect into smaller bitset.
        if self.data.len() < other.data.len() {
            let mut left = self;
            left.intersect(&other);
            left
        } else {
            let mut left = other;
            left.intersect(&self);
            proof { assert(other@.intersect(self@) =~= self@.intersect(other@)); }
            left
        }
    }
}

impl BitSet {
    /// Blocks in use at level 1, including the reserved empty block.
    pub closed spec fn hi_blocks_used(&self) -> int {
        self.level1.used_len()
    }

    /// Blocks in use at the data level, including the reserved empty block.
    pub closed spec fn data_blocks_used(&self) -> int {
        self.data.used_len()
    }

    /// Memory usage info.
    pub fn mem_info(&self) -> (r: MemInfo<'_>)
        ensures
            r.of() == self,
            r.spec_hi_cap() >= self.hi_blocks_used(),
            r.spec_data_cap() >= self.data_blocks_used(),
    {
        let hi_cap = self.level1.cap();
        let data_cap = self.data.cap();
        MemInfo { bitset: self, hi_cap, data_cap }
    }

    /// Set of the given indices.
    pub fn from_indices(indices: &[usize]) -> (r: BitSet)
        requires
            forall|k: int| 0 <= k < indices@.len() ==> #[trigger] indices@[k] < MAX_CAPACITY,
        ensures
            r.wf(),
            r@ == Set::new(|i: int| exists|k: int| 0 <= k < indices@.len() && indices@[k] == i),
    {
        let mut r = BitSet::new();
        let mut n: usize = 0;
        while n < indices.len()
            invariant
                n <= indices@.len(),
                r.wf(),
                forall|k: int| 0 <= k < indices@.len() ==> #[trigger] indices@[k] < MAX_CAPACITY,
                r@ == Set::new(|i: int| exists|k: int| 0 <= k < n && indices@[k] == i),
            decreases indices@.len() - n,
        {
            let ghost before = r@;
            r.insert(indices[n]);
            proof {
                assert(r@ =~= Set::new(|i: int| exists|k: int| 0 <= k < n + 1 && indices@[k] == i)) by {
                    assert forall|i: int| #[trigger] r@.contains(i) implies exists|k: int| 0 <= k < n + 1 && indices@[k] == i by {
                        if i == indices@[n as int] {
                            assert(0 <= n < n + 1 && indices@[n as int] == i);
                        } else {
                            assert(before.contains(i));
                        }
                    }
                    assert forall|i: int| (exists|k: int| 0 <= k < n + 1 && indices@[k] == i) implies #[trigger] r@.contains(i) by {
                        let k = choose|k: int| 0 <= k < n + 1 && indices@[k] == i;
                        if k < n {
                            assert(before.contains(i));
                        }
                    }
                }
            }
            n += 1;
        }
        r
    }
}

impl Clone for BitSet {
    /// A copy of the set, with its blocks laid out the same way.
    fn clone(&self) -> (r: Self)
        ensures
            self.wf() ==> r.wf() && r@ == self@,
            self.wf() ==> r.data_blocks_used() == self.data_blocks_used()
                && r.hi_blocks_used() == self.hi_blocks_used()
                && r.data_blocks_used() == 1 + data_block_keys(r@).len()
                && r.hi_blocks_used() == 1 + level1_block_keys(r@).len(),
    {
        let r = BitSet {
            level0: self.level0.clone_block(),
            level1: self.level1.clone_level(),
            data: self.data.clone_level(),
        };
        proof {
            if self.wf() {
                assert forall|a0: int| 0 <= a0 < 64 implies #[trigger] r.l1_of(a0) == self.l1_of(a0) by {}
                assert forall|a0: int, a1: int| 0 <= a0 < 64 && 0 <= a1 < 64 implies
                    #[trigger] r.d_of(a0, a1) == self.d_of(a0, a1) && r.data_mask_at(a0, a1) == self.data_mask_at(a0, a1)
                    && r.l1_block(a0).mask == self.l1_block(a0).mask by {
                    assert(self.l0_ok(a0));
                    assert(self.l1_ok(a0, a1));
                    assert(r.level1.blocks@[self.l1_of(a0)].block_indices@ == self.level1.blocks@[self.l1_of(a0)].block_indices@);
                    assert(r.data.blocks@[self.d_of(a0, a1)].mask == self.data.blocks@[self.d_of(a0, a1)].mask);
                }
                assert forall|i: int| #[trigger] r@.contains(i) == self@.contains(i) by {
                    Self::lemma_has_by_mask(self, i);
                    Self::lemma_has_by_mask(&r, i);
                }
                assert(r@ =~= self@);
                assert forall|l0: int| 0 <= l0 < 64 implies #[trigger] r.l0_ok(l0) by {
                    assert(self.l0_ok(l0));
                }
                assert forall|l0: int, l1: int| 0 <= l0 < 64 && 0 <= l1 < 64 implies #[trigger] r.l1_ok(l0, l1) by {
                    assert(self.l0_ok(l0));
                    assert(self.l1_ok(l0, l1));
                    assert(r.d_of(l0, l1) == self.d_of(l0, l1));
                    assert(r.l1_block(l0).mask == self.l1_block(l0).mask);
                }
                assert(r.inj0()) by {
                    assert forall|a: int, b: int| 0 <= a < 64 && 0 <= b < 64 && a != b && #[trigger] r.l1_of(a) != 0 implies
                        r.l1_of(a) != #[trigger] r.l1_of(b) by {
                        assert(self.l1_of(a) != self.l1_of(b));
                    }
                }
                assert(r.inj1()) by {
                    assert forall|a0: int, a1: int, b0: int, b1: int|
                        0 <= a0 < 64 && 0 <= a1 < 64 && 0 <= b0 < 64 && 0 <= b1 < 64 && (a0 != b0 || a1 != b1)
                        && #[trigger] r.d_of(a0, a1) != 0 implies r.d_of(a0, a1) != #[trigger] r.d_of(b0, b1) by {
                        assert(r.d_of(a0, a1) == self.d_of(a0, a1));
                        assert(r.d_of(b0, b1) == self.d_of(b0, b1));
                    }
                }
                assert forall|l0: int| 0 <= l0 < 64 && #[trigger] r.l1_of(l0) != 0 implies r.l1_block(l0).mask != 0 by {
                    assert(self.l0_ok(l0));
                    assert(r.l1_block(l0).mask == self.l1_block(l0).mask) by {
                        assert(r.d_of(l0, 0) == self.d_of(l0, 0));
                    }
                }
                assert forall|l0: int, l1: int| 0 <= l0 < 64 && 0 <= l1 < 64 && #[trigger] r.d_of(l0, l1) != 0
                    implies r.data.blocks@[r.d_of(l0, l1)].mask != 0 by {
                    assert(r.d_of(l0, l1) == self.d_of(l0, l1));
                    assert(self.l1_ok(l0, l1));
                }
                assert forall|x: int| 0 <= x < 64 && r.level1.is_live(#[trigger] self.l1_of(x)) implies r.l1_of(x) == self.l1_of(x) by {}
                Self::lemma_l1_reach(*self, r, -1, 0);
                assert forall|x0: int, x1: int| 0 <= x0 < 64 && 0 <= x1 < 64 && r.data.is_live(#[trigger] self.d_of(x0, x1))
                    implies r.d_of(x0, x1) == self.d_of(x0, x1) by {}
                Self::lemma_data_reach(*self, r, -1, 0, 0);
                assert(r.wf());
                lemma_blocks_in_use(&r);
            }
        }
        r
    }
}

impl Default for BitSet {
    fn default() -> (r: Self)
        ensures
            r.wf(),
            r@ == Set::<int>::empty(),
    {
        BitSet::new()
    }
}

/// [BitSet] memory usage info.
///
/// The capacities of the block storages are read once, when the info is made;
/// the bitset stays borrowed, so they cannot change while the info lives.
pub struct MemInfo<'a> {
    bitset: &'a BitSet,
    hi_cap: usize,
    data_cap: usize,
}

impl<'a> MemInfo<'a> {
    /// The capacities hold at least the blocks in use.
    #[verifier::type_invariant]
    spec fn inv(&self) -> bool {
        &&& self.hi_cap >= self.bitset.hi_blocks_used()
        &&& self.data_cap >= self.data_blocks_used_of()
    }

    spec fn data_blocks_used_of(&self) -> int {
        self.bitset.data_blocks_used()
    }

    /// The bitset the info is about.
    pub closed spec fn of(&self) -> &'a BitSet {
        self.bitset
    }

    /// Capacity of the level-1 block storage.
    pub closed spec fn spec_hi_cap(&self) -> int {
        self.hi_cap as int
    }

    /// Capacity of the data block storage.
    pub closed spec fn spec_data_cap(&self) -> int {
        self.data_cap as int
    }
}

impl<'a> MemInfo<'a> {
    /// Capacity of hierarchy block storage.
    pub fn hi_blocks_cap(&self) -> (r: usize)
        ensures
            r == self.spec_hi_cap(),
            r >= self.of().hi_blocks_used(),
    {
        proof { use_type_invariant(self); }
        self.hi_cap
    }

    /// Amount of hierarchy blocks actually used.
    pub fn hi_blocks_len(&self) -> (r: usize)
        requires
            self.of().wf(),
        ensures
            r == self.of().hi_blocks_used(),
    {
        self.bitset.level1.len()
    }

    /// Capacity of data block storage.
    pub fn data_blocks_cap(&self) -> (r: usize)
        ensures
            r == self.spec_data_cap(),
            r >= self.of().data_blocks_used(),
    {
        proof { use_type_invariant(self); }
        self.data_cap
    }

    /// Amount of data blocks actually used.
    pub fn data_blocks_len(&self) -> (r: usize)
        requires
            self.of().wf(),
        ensures
            r == self.of().data_blocks_used(),
    {
        self.bitset.data.len()
    }

    /// Total amount of memory used by the [BitSet], in bytes: its own size,
    /// the indices of its root block, and each block the storage of each
    /// level has room for, as [hi_blocks_cap](Self::hi_blocks_cap) and
    /// [data_blocks_cap](Self::data_blocks_cap) report it (a level-1 block
    /// with its 64 indices, a data block). Saturates at `usize::MAX`.
    pub fn mem_usage(&self) -> (r: usize)
        ensures
            r == crate::spec_min(usize::MAX as int,
                vstd::layout::size_of::<BitSet>() + 64 * vstd::layout::size_of::<usize>()
                + self.spec_hi_cap() * (vstd::layout::size_of::<Block>() + 64 * vstd::layout::size_of::<usize>())
                + self.spec_data_cap() * vstd::layout::size_of::<Block>()),
            exists|hc: int, dc: int| hc >= self.of().hi_blocks_used() && dc >= self.of().data_blocks_used()
                && r == crate::spec_min(usize::MAX as int, mem_bytes(hc, dc)),
    {
        let hc = self.hi_blocks_cap();
        let dc = self.data_blocks_cap();
        let set_size = core::mem::size_of::<BitSet>();
        let block_size = core::mem::size_of::<Block>();
        let index_size = core::mem::size_of::<usize>();
        let ghost exact = mem_bytes(hc as int, dc as int);
        proof {
            assert(exact >= hc * (block_size + 64 * index_size) && exact >= dc * block_size) by (nonlinear_arith)
                requires
                    exact == set_size + 64 * index_size + hc * (block_size + 64 * index_size) + dc * block_size,
                    0 <= hc, 0 <= dc, 0 <= block_size, 0 <= index_size, 0 <= set_size;
        }
        let indices: u128 = 64u128 * (index_size as u128);
        let hi_block: u128 = block_size as u128 + indices;
        let hi: u128 = match (hc as u128).checked_mul(hi_block) {
            Some(v) => v,
            None => { return usize::MAX; },
        };
        let data: u128 = match (dc as u128).checked_mul(block_size as u128) {
            Some(v) => v,
            None => { return usize::MAX; },
        };
        let fixed: u128 = set_size as u128 + indices;
        let total: u128 = match fixed.checked_add(hi) {
            Some(v) => match v.checked_add(data) {
                Some(w) => w,
                None => { return usize::MAX; },
            },
            None => { return usize::MAX; },
        };
        if total > usize::MAX as u128 {
            usize::MAX
        } else {
            total as usize
        }
    }
}

/// Memory grows by block of room: each level-1 block costs a block and its
/// 64 indices, each data block costs a block, and a set with no room at all
/// costs its own size and its root indices.
pub proof fn lemma_mem_bytes_per_block(hc: int, dc: int)
    ensures
        mem_bytes(hc + 1, dc) == mem_bytes(hc, dc) + vstd::layout::size_of::<Block>()
            + 64 * vstd::layout::size_of::<usize>(),
        mem_bytes(hc, dc + 1) == mem_bytes(hc, dc) + vstd::layout::size_of::<Block>(),
        mem_bytes(0, 0) == vstd::layout::size_of::<BitSet>() + 64 * vstd::layout::size_of::<usize>(),
{
    let b = vstd::layout::size_of::<Block>() as int;
    let u = vstd::layout::size_of::<usize>() as int;
    assert((hc + 1) * (b + 64 * u) == hc * (b + 64 * u) + b + 64 * u) by (nonlinear_arith);
    assert((dc + 1) * b == dc * b + b) by (nonlinear_arith);
}

/// Bytes of a [BitSet] whose level-1 storage has room for `hc` blocks and
/// whose data storage has room for `dc` blocks.
pub open spec fn mem_bytes(hc: int, dc: int) -> int {
    vstd::layout::size_of::<BitSet>() + 64 * vstd::layout::size_of::<usize>()
        + hc * (vstd::layout::size_of::<Block>() + 64 * vstd::layout::size_of::<usize>())
        + dc * vstd::layout::size_of::<Block>()
}

/// Facts on the lowest raised bit, in the form the traversals use.
proof fn lemma_lowest_bit_props(x: u64)
    ensures
        x != 0 ==> bit_at(x, crate::bit_utils::lowest_bit(x) as u64),
        crate::bit_utils::lowest_bit(x) <= 64,
        x != 0 ==> crate::bit_utils::lowest_bit(x) < 64,
{
    crate::bit_utils::lemma_lowest_bit(x);
}

impl crate::bitset_interface::BitSetInterface for BitSet {
}

impl BitSetBase for BitSet {
    open spec fn spec_trusted_hierarchy() -> bool {
        true
    }

    fn trusted_hierarchy() -> (r: bool) {
        true
    }
}

impl LevelMasks for BitSet {
    open spec fn spec_wf(&self) -> bool {
        self.wf()
    }

    open spec fn spec_level0_mask(&self) -> u64 {
        self.level0_mask_spec()
    }

    open spec fn spec_level1_mask(&self, level0_index: int) -> u64 {
        self.level1_mask_at(level0_index)
    }

    open spec fn spec_data_mask(&self, level0_index: int, level1_index: int) -> u64 {
        self.data_mask_at(level0_index, level1_index)
    }

    fn level0_mask(&self) -> (r: u64) {
        self.level0.mask
    }

    fn level1_mask(&self, level0_index: usize) -> (r: u64) {
        let k = self.level0.block_indices[level0_index];
        proof { assert(self.l0_ok(level0_index as int)); }
        self.level1.blocks[k].mask
    }

    fn data_mask(&self, level0_index: usize, level1_index: usize) -> (r: u64) {
        let (k, m) = self.get_block_indices(level0_index, level1_index);
        self.data.blocks[m].mask
    }

    proof fn lemma_hierarchy(&self) {
        lemma_bit_zero();
        assert forall|l0: int, l1: int| 0 <= l0 < 64 && 0 <= l1 < 64 && #[trigger] self.spec_data_mask(l0, l1) != 0 implies
            bit_of(self.spec_level0_mask(), l0) && bit_of(self.spec_level1_mask(l0), l1) by {
            assert(self.l0_ok(l0));
            assert(self.l1_ok(l0, l1));
            assert(self.d_of(l0, l1) != 0);
            if self.l1_of(l0) == 0 {
                assert(self.level1.blocks@[0].is_zeroed());
            }
        }
        assert forall|l0: int| 0 <= l0 < 64 && bit_of(self.spec_level0_mask(), l0) implies #[trigger] self.spec_level1_mask(l0) != 0 by {
            assert(self.l0_ok(l0));
        }
        assert forall|l0: int| 0 <= l0 < 64 && !bit_of(self.spec_level0_mask(), l0) implies #[trigger] self.spec_level1_mask(l0) == 0 by {
            assert(self.l0_ok(l0));
            assert(self.level1.blocks@[0].is_zeroed());
        }
        assert forall|l0: int, l1: int|
            0 <= l0 < 64 && 0 <= l1 < 64 && bit_of(self.spec_level0_mask(), l0) && bit_of(self.spec_level1_mask(l0), l1)
            implies #[trigger] self.spec_data_mask(l0, l1) != 0 by {
            assert(self.l0_ok(l0));
            assert(self.l1_ok(l0, l1));
        }
    }
}

impl BitSet {
    /// Level-1 blocks stay reached: every block in use in `b` but `new_k` was
    /// in use in `a`, `new_k` is reached from `new_a` in `b`, and `b` keeps
    /// every link of `a` to a block still in use.
    proof fn lemma_l1_reach(a: BitSet, b: BitSet, new_k: int, new_a: int)
        requires
            a.l1_reached(),
            forall|k: int| #[trigger] b.level1.is_live(k) && k != new_k ==> a.level1.is_live(k),
            b.level1.is_live(new_k) ==> 0 <= new_a < 64 && b.l1_of(new_a) == new_k,
            forall|x: int| 0 <= x < 64 && b.level1.is_live(#[trigger] a.l1_of(x)) ==> b.l1_of(x) == a.l1_of(x),
        ensures
            b.l1_reached(),
    {
        assert forall|k: int| #[trigger] b.level1.is_live(k) implies exists|x: int| 0 <= x < 64 && #[trigger] b.l1_of(x) == k by {
            if k == new_k {
                assert(b.l1_of(new_a) == k);
            } else {
                assert(a.level1.is_live(k));
                let x = choose|x: int| 0 <= x < 64 && #[trigger] a.l1_of(x) == k;
                assert(b.l1_of(x) == k);
            }
        }
    }

    /// Data blocks stay reached: every block in use in `b` but `new_m` was in
    /// use in `a`, `new_m` is reached from `(new_a0, new_a1)` in `b`, and `b`
    /// keeps every link of `a` to a block still in use.
    proof fn lemma_data_reach(a: BitSet, b: BitSet, new_m: int, new_a0: int, new_a1: int)
        requires
            a.data_reached(),
            forall|m: int| #[trigger] b.data.is_live(m) && m != new_m ==> a.data.is_live(m),
            b.data.is_live(new_m) ==> 0 <= new_a0 < 64 && 0 <= new_a1 < 64 && b.d_of(new_a0, new_a1) == new_m,
            forall|x0: int, x1: int| 0 <= x0 < 64 && 0 <= x1 < 64 && b.data.is_live(#[trigger] a.d_of(x0, x1))
                ==> b.d_of(x0, x1) == a.d_of(x0, x1),
        ensures
            b.data_reached(),
    {
        assert forall|m: int| #[trigger] b.data.is_live(m) implies exists|x0: int, x1: int|
            0 <= x0 < 64 && 0 <= x1 < 64 && #[trigger] b.d_of(x0, x1) == m by {
            if m == new_m {
                assert(b.d_of(new_a0, new_a1) == m);
            } else {
                assert(a.data.is_live(m));
                let (x0, x1) = choose|x0: int, x1: int| 0 <= x0 < 64 && 0 <= x1 < 64 && #[trigger] a.d_of(x0, x1) == m;
                assert(b.d_of(x0, x1) == m);
            }
        }
    }
}

/// A set without indices holds only the root block and the reserved empty
/// block of each lower level: removing every index leaves no block in use.
pub proof fn lemma_empty_uses_no_blocks(s: &BitSet)
    requires
        s.wf(),
        s@ == Set::<int>::empty(),
    ensures
        s.hi_blocks_used() == 1,
        s.data_blocks_used() == 1,
{
    lemma_bit_zero();
    assert forall|a0: int, a1: int| 0 <= a0 < 64 && 0 <= a1 < 64 implies #[trigger] s.d_of(a0, a1) == 0 by {
        if s.d_of(a0, a1) != 0 {
            let m = s.data_mask_at(a0, a1);
            assert(m != 0);
            let j = crate::bit_utils::lemma_nonzero_has_bit(m);
            crate::bit_utils::lemma_index_compose(a0, a1, j as int);
            assert(s@.contains(a0 * 4096 + a1 * 64 + j));
        }
    }
    assert forall|m: int| !#[trigger] s.data.is_live(m) by {
        if s.data.is_live(m) {
            let (a0, a1) = choose|a0: int, a1: int| 0 <= a0 < 64 && 0 <= a1 < 64 && #[trigger] s.d_of(a0, a1) == m;
            assert(s.d_of(a0, a1) == 0);
        }
    }
    lemma_level_none_live(&s.data);
    assert forall|a: int| 0 <= a < 64 implies #[trigger] s.l1_of(a) == 0 by {
        if s.l1_of(a) != 0 {
            let mask = s.l1_block(a).mask;
            assert(mask != 0);
            let j = crate::bit_utils::lemma_nonzero_has_bit(mask);
            assert(s.l1_ok(a, j as int));
            assert(s.d_of(a, j as int) == 0);
        }
    }
    assert forall|k: int| !#[trigger] s.level1.is_live(k) by {
        if s.level1.is_live(k) {
            let a = choose|a: int| 0 <= a < 64 && #[trigger] s.l1_of(a) == k;
            assert(s.l1_of(a) == 0);
        }
    }
    lemma_level_none_live(&s.level1);
}

/// The keys of the `width`-index blocks that hold indices of `s`: index `i`
/// lies in the block with key `i / width`.
pub open spec fn block_keys(s: Set<int>, width: int) -> Set<int> {
    s.map(|i: int| i / width)
}

/// The keys of the data blocks that hold indices of `s`.
pub open spec fn data_block_keys(s: Set<int>) -> Set<int> {
    block_keys(s, 64)
}

/// The keys of the level-1 blocks that hold indices of `s`.
pub open spec fn level1_block_keys(s: Set<int>) -> Set<int> {
    block_keys(s, 4096)
}

/// Adding an index adds the key of its block.
proof fn lemma_keys_insert(s: Set<int>, x: int, w: int)
    requires
        s.finite(),
    ensures
        block_keys(s, w).finite(),
        block_keys(s.insert(x), w) == block_keys(s, w).insert(x / w),
{
    vstd::set_lib::lemma_map_size_bound(s, block_keys(s, w), |i: int| i / w);
    assert forall|k: int| #[trigger] block_keys(s.insert(x), w).contains(k) == block_keys(s, w).insert(x / w).contains(k) by {
        if block_keys(s.insert(x), w).contains(k) {
            let i = choose|i: int| s.insert(x).contains(i) && i / w == k;
            if i != x {
                assert(s.contains(i));
            }
        }
        if block_keys(s, w).contains(k) {
            let i = choose|i: int| s.contains(i) && i / w == k;
            assert(s.insert(x).contains(i));
        }
        if k == x / w {
            assert(s.insert(x).contains(x));
        }
    }
    assert(block_keys(s.insert(x), w) =~= block_keys(s, w).insert(x / w));
}

/// How the blocks in use change when `b` is `a` with `x` added.
proof fn lemma_insert_count(a: &BitSet, b: &BitSet, x: int)
    requires
        a.wf(),
        b.wf(),
        b@ == a@.insert(x),
    ensures
        b.data_blocks_used() == a.data_blocks_used() + if data_block_keys(a@).contains(x / 64) { 0int } else { 1int },
        b.hi_blocks_used() == a.hi_blocks_used() + if level1_block_keys(a@).contains(x / 4096) { 0int } else { 1int },
        b.data_blocks_used() == 1 + data_block_keys(b@).len(),
        b.hi_blocks_used() == 1 + level1_block_keys(b@).len(),
{
    lemma_blocks_in_use(a);
    lemma_blocks_in_use(b);
    lemma_keys_insert(a@, x, 64);
    lemma_keys_insert(a@, x, 4096);
}

/// How the blocks in use change when `b` is `a` with `x` taken out: a block
/// is released exactly when `x` was its last index.
proof fn lemma_remove_count(a: &BitSet, b: &BitSet, x: int)
    requires
        a.wf(),
        b.wf(),
        b@ == a@.remove(x),
    ensures
        b.data_blocks_used() == a.data_blocks_used()
            - if data_block_keys(a@).contains(x / 64) && !data_block_keys(b@).contains(x / 64) { 1int } else { 0int },
        b.hi_blocks_used() == a.hi_blocks_used()
            - if level1_block_keys(a@).contains(x / 4096) && !level1_block_keys(b@).contains(x / 4096) { 1int } else { 0int },
        b.data_blocks_used() == 1 + data_block_keys(b@).len(),
        b.hi_blocks_used() == 1 + level1_block_keys(b@).len(),
{
    lemma_blocks_in_use(a);
    lemma_blocks_in_use(b);
    if a@.contains(x) {
        assert(a@ =~= b@.insert(x));
        lemma_keys_insert(b@, x, 64);
        lemma_keys_insert(b@, x, 4096);
    } else {
        assert(a@ =~= b@);
    }
}

/// Only blocks with data stay in use: besides the root block and the reserved
/// empty block of each lower level, a set uses exactly one data block per
/// 64-index block that holds one of its indices, and exactly one level-1 block
/// per 4096-index block that holds one of its indices.
pub proof fn lemma_blocks_in_use(s: &BitSet)
    requires
        s.wf(),
    ensures
        s@.finite(),
        s.data_blocks_used() == 1 + data_block_keys(s@).len(),
        s.hi_blocks_used() == 1 + level1_block_keys(s@).len(),
{
    lemma_bit_zero();
    let range = vstd::set_lib::set_int_range(0, MAX_CAPACITY as int);
    assert(s@.subset_of(range));
    vstd::set_lib::lemma_int_range(0, MAX_CAPACITY as int);
    vstd::set_lib::lemma_len_subset(s@, range);

    // An index lies in a data block in use, under a level-1 block in use.
    assert forall|i: int| #[trigger] s@.contains(i) implies
        s.data.is_live(s.d_of(idx0(i), idx1(i))) && s.level1.is_live(s.l1_of(idx0(i))) by {
        lemma_index_parts(i);
        assert(s.l0_ok(idx0(i)));
        assert(s.l1_ok(idx0(i), idx1(i)));
        if s.d_of(idx0(i), idx1(i)) == 0 {
            assert(s.data.blocks@[0].is_zeroed());
        }
        if s.l1_of(idx0(i)) == 0 {
            assert(s.level1.blocks@[0].is_zeroed());
        }
    }
    // A data block in use holds an index.
    let fd = |i: int| s.d_of(idx0(i), idx1(i));
    assert forall|m: int| #[trigger] live_blocks(&s.data).contains(m) == s@.map(fd).contains(m) by {
        if s.data.is_live(m) {
            let (a0, a1) = choose|a0: int, a1: int| 0 <= a0 < 64 && 0 <= a1 < 64 && #[trigger] s.d_of(a0, a1) == m;
            let mask = s.data_mask_at(a0, a1);
            assert(mask != 0);
            let j = crate::bit_utils::lemma_nonzero_has_bit(mask);
            crate::bit_utils::lemma_index_compose(a0, a1, j as int);
            let i = a0 * 4096 + a1 * 64 + j;
            assert(s@.contains(i) && fd(i) == m);
        }
        if s@.map(fd).contains(m) {
            let i = choose|i: int| s@.contains(i) && fd(i) == m;
            assert(s.data.is_live(s.d_of(idx0(i), idx1(i))));
        }
    }
    assert(live_blocks(&s.data) =~= s@.map(fd));
    lemma_level_live_count(&s.data);

    // The data block of an index is found from the key of its 64-index block,
    // and distinct keys lead to distinct data blocks.
    let g = |i: int| i / 64;
    let h = |k: int| s.d_of(k / 64, k % 64);
    let keys = data_block_keys(s@);
    assert(keys == s@.map(g));
    vstd::set_lib::lemma_map_size_bound(s@, keys, g);
    assert forall|i: int| #[trigger] s@.contains(i) implies fd(i) == h(g(i)) && 0 <= g(i) < 4096 by {
        lemma_index_parts(i);
        vstd::arithmetic::div_mod::lemma_div_denominator(i, 64, 64);
    }
    assert forall|m: int| #[trigger] s@.map(fd).contains(m) == keys.map(h).contains(m) by {
        if s@.map(fd).contains(m) {
            let i = choose|i: int| s@.contains(i) && fd(i) == m;
            assert(keys.contains(g(i)));
        }
        if keys.map(h).contains(m) {
            let k = choose|k: int| keys.contains(k) && h(k) == m;
            let i = choose|i: int| s@.contains(i) && g(i) == k;
            assert(s@.map(fd).contains(fd(i)));
        }
    }
    assert(s@.map(fd) =~= keys.map(h));
    assert forall|k1: int, k2: int| keys.contains(k1) && keys.contains(k2) && #[trigger] h(k1) == #[trigger] h(k2)
        implies k1 == k2 by {
        let i1 = choose|i: int| s@.contains(i) && g(i) == k1;
        let i2 = choose|i: int| s@.contains(i) && g(i) == k2;
        assert(s.data.is_live(fd(i1)));
        assert(k1 == (k1 / 64) * 64 + k1 % 64 && k2 == (k2 / 64) * 64 + k2 % 64);
        assert(s.d_of(k1 / 64, k1 % 64) != 0);
        if k1 / 64 != k2 / 64 || k1 % 64 != k2 % 64 {
            assert(s.d_of(k1 / 64, k1 % 64) != s.d_of(k2 / 64, k2 % 64));
        }
    }
    vstd::set_lib::lemma_map_size(keys, keys.map(h), h);

    // A level-1 block in use holds a data block in use, which holds an index.
    let fl = |i: int| s.l1_of(idx0(i));
    assert forall|k: int| #[trigger] live_blocks(&s.level1).contains(k) == s@.map(fl).contains(k) by {
        if s.level1.is_live(k) {
            let a = choose|a: int| 0 <= a < 64 && #[trigger] s.l1_of(a) == k;
            let l1mask = s.l1_block(a).mask;
            assert(l1mask != 0);
            let b = crate::bit_utils::lemma_nonzero_has_bit(l1mask);
            assert(s.l1_ok(a, b as int));
            let mask = s.data_mask_at(a, b as int);
            assert(mask != 0);
            let j = crate::bit_utils::lemma_nonzero_has_bit(mask);
            crate::bit_utils::lemma_index_compose(a, b as int, j as int);
            let i = a * 4096 + b * 64 + j;
            assert(s@.contains(i) && fl(i) == k);
        }
        if s@.map(fl).contains(k) {
            let i = choose|i: int| s@.contains(i) && fl(i) == k;
            assert(s.level1.is_live(s.l1_of(idx0(i))));
        }
    }
    assert(live_blocks(&s.level1) =~= s@.map(fl));
    lemma_level_live_count(&s.level1);

    // Likewise, through the key of the 4096-index block.
    let g1 = |i: int| i / 4096;
    let h1 = |k: int| s.l1_of(k);
    let keys1 = level1_block_keys(s@);
    assert(keys1 == s@.map(g1));
    vstd::set_lib::lemma_map_size_bound(s@, keys1, g1);
    assert forall|i: int| #[trigger] s@.contains(i) implies fl(i) == h1(g1(i)) && 0 <= g1(i) < 64 by {
        lemma_index_parts(i);
    }
    assert forall|m: int| #[trigger] s@.map(fl).contains(m) == keys1.map(h1).contains(m) by {
        if s@.map(fl).contains(m) {
            let i = choose|i: int| s@.contains(i) && fl(i) == m;
            assert(keys1.contains(g1(i)));
        }
        if keys1.map(h1).contains(m) {
            let k = choose|k: int| keys1.contains(k) && h1(k) == m;
            let i = choose|i: int| s@.contains(i) && g1(i) == k;
            assert(s@.map(fl).contains(fl(i)));
        }
    }
    assert(s@.map(fl) =~= keys1.map(h1));
    assert forall|k1: int, k2: int| keys1.contains(k1) && keys1.contains(k2) && #[trigger] h1(k1) == #[trigger] h1(k2)
        implies k1 == k2 by {
        let i1 = choose|i: int| s@.contains(i) && g1(i) == k1;
        assert(s.level1.is_live(fl(i1)));
        assert(s.l1_of(k1) != 0);
    }
    vstd::set_lib::lemma_map_size(keys1, keys1.map(h1), h1);
}

/// Memory does not depend on the values of the indices: besides the root
/// block and the reserved empty block of each lower level, a set uses at
/// most one level-1 block and one data block per index it holds.
pub proof fn lemma_blocks_bounded_by_len(s: &BitSet)
    requires
        s.wf(),
    ensures
        s@.finite(),
        s.hi_blocks_used() <= 1 + s@.len(),
        s.data_blocks_used() <= 1 + s@.len(),
{
    lemma_blocks_in_use(s);
    vstd::set_lib::lemma_map_size_bound(s@, data_block_keys(s@), |i: int| i / 64);
    vstd::set_lib::lemma_map_size_bound(s@, level1_block_keys(s@), |i: int| i / 4096);
}

/// The injectivity of the index links carries over to a bitset with the same links.
proof fn lemma_inj_transfer(a: BitSet, b: BitSet)
    requires
        a.inj0(),
        a.inj1(),
        a.level0.block_indices@ == b.level0.block_indices@,
        a.level1.blocks@ == b.level1.blocks@,
    ensures
        b.inj0(),
        b.inj1(),
{
    assert forall|x: int, y: int| 0 <= x < 64 && 0 <= y < 64 && x != y && #[trigger] b.l1_of(x) != 0 implies
        b.l1_of(x) != #[trigger] b.l1_of(y) by {
        assert(a.l1_of(x) == b.l1_of(x));
        assert(a.l1_of(y) == b.l1_of(y));
    }
    assert forall|a0: int, a1: int, b0: int, b1: int|
        0 <= a0 < 64 && 0 <= a1 < 64 && 0 <= b0 < 64 && 0 <= b1 < 64 && (a0 != b0 || a1 != b1)
        && #[trigger] b.d_of(a0, a1) != 0 implies b.d_of(a0, a1) != #[trigger] b.d_of(b0, b1) by {
        assert(a.d_of(a0, a1) == b.d_of(a0, a1));
        assert(a.d_of(b0, b1) == b.d_of(b0, b1));
    }
}


impl std::ops::BitOr for BitSet {
    type Output = Self;

    /// See [Self::into_union].
    fn bitor(self, rhs: Self) -> (r: Self)
        ensures
            r.wf(),
            r@ == self@.union(rhs@),
    {
        self.into_union(rhs)
    }
}

impl vstd::std_specs::ops::BitOrSpecImpl for BitSet {
    open spec fn obeys_bitor_spec() -> bool {
        false
    }

    open spec fn bitor_req(self, rhs: Self) -> bool {
        self.wf() && rhs.wf()
    }

    /// No claim: the blocks' layout in the result is not a function of the
    /// operands' contents; `bitor` states the contents itself.
    open spec fn bitor_spec(self, rhs: Self) -> Self {
        vstd::pervasive::arbitrary()
    }
}

impl std::ops::BitAnd for BitSet {
    type Output = Self;

    /// See [Self::into_intersection].
    fn bitand(self, rhs: Self) -> (r: Self)
        ensures
            r.wf(),
            r@ == self@.intersect(rhs@),
    {
        self.into_intersection(rhs)
    }
}

impl vstd::std_specs::ops::BitAndSpecImpl for BitSet {
    open spec fn obeys_bitand_spec() -> bool {
        false
    }

    open spec fn bitand_req(self, rhs: Self) -> bool {
        self.wf() && rhs.wf()
    }

    /// No claim: the blocks' layout in the result is not a function of the
    /// operands' contents; `bitand` states the contents itself.
    open spec fn bitand_spec(self, rhs: Self) -> Self {
        vstd::pervasive::arbitrary()
    }
}


} // verus!

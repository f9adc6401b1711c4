//! Mask-level interface shared by every bitset, materialized or lazy.
use vstd::prelude::*;
use crate::bit_utils::{bit_at, bit_of, get_bit_unchecked, level_indices, lemma_index_parts, one_bits_iter,
    lemma_bit_zero, lemma_bit_ops, lemma_nonzero_has_bit, lemma_lowest_bit, lemma_index_compose};
use crate::iter::{BlockIter, IndexIter, hier_keys};
use crate::bitset::{MAX_CAPACITY, idx0, idx1, idx2};

verus! {

/// What every bitset declares of itself.
pub trait BitSetBase: Sized {
    /// Does every raised hierarchy bit point to a non-empty block?
    spec fn spec_trusted_hierarchy() -> bool;

    /// Does this bitset have `TrustedHierarchy`?
    ///
    /// With it, every raised bit of a hierarchy mask points to a non-empty
    /// block, so emptiness is checked on the level-0 mask alone.
    fn trusted_hierarchy() -> (r: bool)
        ensures
            r == Self::spec_trusted_hierarchy(),
    ;
}

/// Basic interface for accessing block masks.
///
/// Level 0 has one 64-bit mask; each raised bit `l0` names a level-1 mask;
/// each raised bit `l1` of that names a data mask, whose bits are the
/// indices `l0 * 4096 + l1 * 64 + bit`.
pub trait LevelMasks: BitSetBase {
    /// The masks are consistent (the invariant of the implementing type).
    spec fn spec_wf(&self) -> bool;

    spec fn spec_level0_mask(&self) -> u64;

    spec fn spec_level1_mask(&self, level0_index: int) -> u64;

    spec fn spec_data_mask(&self, level0_index: int, level1_index: int) -> u64;

    fn level0_mask(&self) -> (r: u64)
        requires
            self.spec_wf(),
        ensures
            r == self.spec_level0_mask(),
    ;

    fn level1_mask(&self, level0_index: usize) -> (r: u64)
        requires
            self.spec_wf(),
            level0_index < 64,
        ensures
            r == self.spec_level1_mask(level0_index as int),
    ;

    fn data_mask(&self, level0_index: usize, level1_index: usize) -> (r: u64)
        requires
            self.spec_wf(),
            level0_index < 64,
            level1_index < 64,
        ensures
            r == self.spec_data_mask(level0_index as int, level1_index as int),
    ;

    /// Hierarchy bits cover every non-empty data block, and a level-1 mask
    /// under a clear level-0 bit is empty; with a trusted
    /// hierarchy, every raised hierarchy bit points to a non-empty block.
    proof fn lemma_hierarchy(&self)
        requires
            self.spec_wf(),
        ensures
            forall|l0: int, l1: int|
                0 <= l0 < 64 && 0 <= l1 < 64 && #[trigger] self.spec_data_mask(l0, l1) != 0 ==> bit_of(
                    self.spec_level0_mask(),
                    l0,
                ) && bit_of(self.spec_level1_mask(l0), l1),
            forall|l0: int|
                0 <= l0 < 64 && !bit_of(self.spec_level0_mask(), l0) ==> #[trigger] self.spec_level1_mask(
                    l0,
                ) == 0,
            Self::spec_trusted_hierarchy() ==> forall|l0: int|
                0 <= l0 < 64 && bit_of(self.spec_level0_mask(), l0) ==> #[trigger] self.spec_level1_mask(l0)
                    != 0,
            Self::spec_trusted_hierarchy() ==> forall|l0: int, l1: int|
                0 <= l0 < 64 && 0 <= l1 < 64 && bit_of(self.spec_level0_mask(), l0) && bit_of(
                    self.spec_level1_mask(l0),
                    l1,
                ) ==> #[trigger] self.spec_data_mask(l0, l1) != 0,
    ;
}

/// Is `index` in the bitset given by `s`'s masks?
pub open spec fn spec_contains<S: LevelMasks>(s: &S, index: int) -> bool {
    &&& 0 <= index < MAX_CAPACITY
    &&& bit_of(s.spec_data_mask(idx0(index), idx1(index)), idx2(index))
}

/// The indices of the bitset given by `s`'s masks.
pub open spec fn spec_contents<S: LevelMasks>(s: &S) -> Set<int> {
    Set::new(|index: int| spec_contains(s, index))
}

impl<'a, T: LevelMasks> BitSetBase for &'a T {
    open spec fn spec_trusted_hierarchy() -> bool {
        T::spec_trusted_hierarchy()
    }

    fn trusted_hierarchy() -> (r: bool) {
        T::trusted_hierarchy()
    }
}

impl<'a, T: LevelMasks> LevelMasks for &'a T {
    open spec fn spec_wf(&self) -> bool {
        (**self).spec_wf()
    }

    open spec fn spec_level0_mask(&self) -> u64 {
        (**self).spec_level0_mask()
    }

    open spec fn spec_level1_mask(&self, level0_index: int) -> u64 {
        (**self).spec_level1_mask(level0_index)
    }

    open spec fn spec_data_mask(&self, level0_index: int, level1_index: int) -> u64 {
        (**self).spec_data_mask(level0_index, level1_index)
    }

    fn level0_mask(&self) -> (r: u64) {
        (**self).level0_mask()
    }

    fn level1_mask(&self, level0_index: usize) -> (r: u64) {
        (**self).level1_mask(level0_index)
    }

    fn data_mask(&self, level0_index: usize, level1_index: usize) -> (r: u64) {
        (**self).data_mask(level0_index, level1_index)
    }

    proof fn lemma_hierarchy(&self) {
        (**self).lemma_hierarchy();
    }
}

/// Is `index` in `bitset`?
pub fn bitset_contains<S: LevelMasks>(bitset: &S, index: usize) -> (r: bool)
    requires
        bitset.spec_wf(),
        index < MAX_CAPACITY,
    ensures
        r == spec_contains(bitset, index as int),
{
    let (level0_index, level1_index, data_index) = level_indices(index);
    proof { lemma_index_parts(index as int); }
    let data_block = bitset.data_mask(level0_index, level1_index);
    get_bit_unchecked(data_block, data_index)
}


/// Do `left` and `right` have the same data masks under `level0_index`?
pub open spec fn same_masks_on<L: LevelMasks, R: LevelMasks>(left: &L, right: &R, level0_index: int) -> bool {
    forall|a1: int| 0 <= a1 < 64 ==> #[trigger] left.spec_data_mask(level0_index, a1) == right.spec_data_mask(level0_index, a1)
}

/// Different data masks on one path make different contents.
pub proof fn lemma_contents_differ<L: LevelMasks, R: LevelMasks>(left: &L, right: &R, a0: int, a1: int)
    requires
        0 <= a0 < 64,
        0 <= a1 < 64,
        left.spec_data_mask(a0, a1) != right.spec_data_mask(a0, a1),
    ensures
        spec_contents(left) != spec_contents(right),
{
    let x = left.spec_data_mask(a0, a1);
    let y = right.spec_data_mask(a0, a1);
    assert(x ^ y != 0u64) by (bit_vector) requires x != y;
    let j = lemma_nonzero_has_bit(x ^ y);
    lemma_bit_ops(x, y);
    let i = a0 * 4096 + a1 * 64 + j;
    lemma_index_compose(a0, a1, j as int);
    assert(spec_contents(left).contains(i) != spec_contents(right).contains(i));
}

/// Same data masks on every path make the same contents.
pub proof fn lemma_contents_same<L: LevelMasks, R: LevelMasks>(left: &L, right: &R)
    requires
        forall|a0: int| 0 <= a0 < 64 ==> #[trigger] same_masks_on(left, right, a0),
    ensures
        spec_contents(left) == spec_contents(right),
{
    assert forall|i: int| #[trigger] spec_contents(left).contains(i) == spec_contents(right).contains(i) by {
        if 0 <= i < MAX_CAPACITY {
            lemma_index_parts(i);
            assert(same_masks_on(left, right, idx0(i)));
        }
    }
    assert(spec_contents(left) =~= spec_contents(right));
}

/// Compares the data masks of `left` and `right` under `level0_index`, at
/// the raised bits of `level1_mask`, which cover both sides' non-empty blocks.
fn data_masks_eq_on<L: LevelMasks, R: LevelMasks>(left: &L, right: &R, level0_index: usize, level1_mask: u64) -> (r: bool)
    requires
        left.spec_wf(),
        right.spec_wf(),
        level0_index < 64,
        forall|a1: int| 0 <= a1 < 64 && !bit_of(level1_mask, a1) ==>
            #[trigger] left.spec_data_mask(level0_index as int, a1) == 0 && right.spec_data_mask(level0_index as int, a1) == 0,
    ensures
        r == same_masks_on(left, right, level0_index as int),
{
    let mut level1_iter = one_bits_iter(level1_mask);
    while level1_iter.element != 0
        invariant
            left.spec_wf(),
            right.spec_wf(),
            level0_index < 64,
            forall|a1: int| 0 <= a1 < 64 && !bit_of(level1_mask, a1) ==>
                #[trigger] left.spec_data_mask(level0_index as int, a1) == 0 && right.spec_data_mask(level0_index as int, a1) == 0,
            forall|j: u64| j < 64 ==> #[trigger] bit_at(level1_iter.element, j) ==> bit_at(level1_mask, j),
            forall|a1: int| 0 <= a1 < 64 && bit_of(level1_mask, a1) && !bit_of(level1_iter.element, a1) ==>
                #[trigger] left.spec_data_mask(level0_index as int, a1) == right.spec_data_mask(level0_index as int, a1),
        decreases level1_iter.element,
    {
        let ghost before = level1_iter.element;
        let level1_index = level1_iter.next().unwrap();
        proof { lemma_lowest_bit(before); }
        let left_data = left.data_mask(level0_index, level1_index);
        let right_data = right.data_mask(level0_index, level1_index);
        if left_data != right_data {
            return false;
        }
        proof {
            assert forall|a1: int| 0 <= a1 < 64 && bit_of(level1_mask, a1) && !bit_of(level1_iter.element, a1) implies
                #[trigger] left.spec_data_mask(level0_index as int, a1) == right.spec_data_mask(level0_index as int, a1) by {
                if a1 != level1_index {
                    assert(bit_at(level1_iter.element, a1 as u64) == bit_at(before, a1 as u64));
                }
            }
        }
    }
    proof { lemma_bit_zero(); }
    true
}

/// Are the data masks of `s` under `level0_index` all empty? The raised bits
/// of `level1_mask` cover its non-empty blocks.
fn data_masks_zero_on<S: LevelMasks>(s: &S, level0_index: usize, level1_mask: u64) -> (r: bool)
    requires
        s.spec_wf(),
        level0_index < 64,
        forall|a1: int| 0 <= a1 < 64 && !bit_of(level1_mask, a1) ==> #[trigger] s.spec_data_mask(level0_index as int, a1) == 0,
    ensures
        r == forall|a1: int| 0 <= a1 < 64 ==> #[trigger] s.spec_data_mask(level0_index as int, a1) == 0,
{
    let mut level1_iter = one_bits_iter(level1_mask);
    while level1_iter.element != 0
        invariant
            s.spec_wf(),
            level0_index < 64,
            forall|a1: int| 0 <= a1 < 64 && !bit_of(level1_mask, a1) ==> #[trigger] s.spec_data_mask(level0_index as int, a1) == 0,
            forall|j: u64| j < 64 ==> #[trigger] bit_at(level1_iter.element, j) ==> bit_at(level1_mask, j),
            forall|a1: int| 0 <= a1 < 64 && bit_of(level1_mask, a1) && !bit_of(level1_iter.element, a1) ==>
                #[trigger] s.spec_data_mask(level0_index as int, a1) == 0,
        decreases level1_iter.element,
    {
        let ghost before = level1_iter.element;
        let level1_index = level1_iter.next().unwrap();
        proof { lemma_lowest_bit(before); }
        let data = s.data_mask(level0_index, level1_index);
        if data != 0 {
            return false;
        }
        proof {
            assert forall|a1: int| 0 <= a1 < 64 && bit_of(level1_mask, a1) && !bit_of(level1_iter.element, a1) implies
                #[trigger] s.spec_data_mask(level0_index as int, a1) == 0 by {
                if a1 != level1_index {
                    assert(bit_at(level1_iter.element, a1 as u64) == bit_at(before, a1 as u64));
                }
            }
        }
    }
    proof { lemma_bit_zero(); }
    true
}

/// Do `left` and `right` hold the same indices?
///
/// Optimistic depth-first check: the first differing block ends it. With
/// trusted hierarchies on both sides, differing hierarchy masks end it.
pub fn bitsets_eq<L: LevelMasks, R: LevelMasks>(left: L, right: R) -> (r: bool)
    requires
        left.spec_wf(),
        right.spec_wf(),
    ensures
        r == (spec_contents(&left) == spec_contents(&right)),
{
    proof { left.lemma_hierarchy(); right.lemma_hierarchy(); lemma_bit_zero(); }
    let left_level0_mask = left.level0_mask();
    let right_level0_mask = right.level0_mask();

    // We can do early return with TrustedHierarchy.
    let is_trusted_hierarchy = L::trusted_hierarchy() && R::trusted_hierarchy();

    let level0_mask = if is_trusted_hierarchy {
        if left_level0_mask != right_level0_mask {
            proof {
                let x = left_level0_mask;
                let y = right_level0_mask;
                assert(x ^ y != 0u64) by (bit_vector) requires x != y;
                let i = lemma_nonzero_has_bit(x ^ y);
                lemma_bit_ops(x, y);
                if bit_at(x, i) {
                    let j = lemma_nonzero_has_bit(left.spec_level1_mask(i as int));
                    assert(right.spec_data_mask(i as int, j as int) == 0);
                    lemma_contents_differ(&left, &right, i as int, j as int);
                } else {
                    let j = lemma_nonzero_has_bit(right.spec_level1_mask(i as int));
                    assert(left.spec_data_mask(i as int, j as int) == 0);
                    lemma_contents_differ(&left, &right, i as int, j as int);
                }
            }
            return false;
        }
        left_level0_mask
    } else {
        // skip only 0's on both sides
        left_level0_mask | right_level0_mask
    };
    proof { lemma_bit_ops(left_level0_mask, right_level0_mask); }

    let mut level0_iter = one_bits_iter(level0_mask);
    while level0_iter.element != 0
        invariant
            left.spec_wf(),
            right.spec_wf(),
            left_level0_mask == left.spec_level0_mask(),
            right_level0_mask == right.spec_level0_mask(),
            is_trusted_hierarchy == (L::spec_trusted_hierarchy() && R::spec_trusted_hierarchy()),
            is_trusted_hierarchy ==> left_level0_mask == right_level0_mask && level0_mask == left_level0_mask,
            !is_trusted_hierarchy ==> level0_mask == left_level0_mask | right_level0_mask,
            forall|j: u64| j < 64 ==> #[trigger] bit_at(level0_iter.element, j) ==> bit_at(level0_mask, j),
            forall|a0: int| 0 <= a0 < 64 && bit_of(level0_mask, a0) && !bit_of(level0_iter.element, a0) ==>
                #[trigger] same_masks_on(&left, &right, a0),
        decreases level0_iter.element,
    {
        let ghost before = level0_iter.element;
        let level0_index = level0_iter.next().unwrap();
        proof {
            lemma_lowest_bit(before);
            left.lemma_hierarchy();
            right.lemma_hierarchy();
            lemma_bit_ops(left_level0_mask, right_level0_mask);
        }
        let left_level1_mask = left.level1_mask(level0_index);
        let right_level1_mask = right.level1_mask(level0_index);
        let ghost i0 = level0_index as int;
        if is_trusted_hierarchy {
            if left_level1_mask != right_level1_mask {
                proof {
                    let x = left_level1_mask;
                    let y = right_level1_mask;
                    assert(x ^ y != 0u64) by (bit_vector) requires x != y;
                    let j = lemma_nonzero_has_bit(x ^ y);
                    lemma_bit_ops(x, y);
                    lemma_contents_differ(&left, &right, i0, j as int);
                }
                return false;
            }
            if !data_masks_eq_on(&left, &right, level0_index, left_level1_mask) {
                proof {
                    let a1 = choose|a1: int| 0 <= a1 < 64 && left.spec_data_mask(i0, a1) != right.spec_data_mask(i0, a1);
                    lemma_contents_differ(&left, &right, i0, a1);
                }
                return false;
            }
        } else {
            let left_valid = get_bit_unchecked(left_level0_mask, level0_index);
            let right_valid = get_bit_unchecked(right_level0_mask, level0_index);
            if left_valid && right_valid {
                let level1_mask = left_level1_mask | right_level1_mask;
                proof { lemma_bit_ops(left_level1_mask, right_level1_mask); }
                if !data_masks_eq_on(&left, &right, level0_index, level1_mask) {
                    proof {
                        let a1 = choose|a1: int| 0 <= a1 < 64 && left.spec_data_mask(i0, a1) != right.spec_data_mask(i0, a1);
                        lemma_contents_differ(&left, &right, i0, a1);
                    }
                    return false;
                }
            } else if left_valid {
                // right is empty here
                let left_zero = if L::trusted_hierarchy() {
                    proof {
                        if left_level1_mask != 0 {
                            let j = lemma_nonzero_has_bit(left_level1_mask);
                            assert(left.spec_data_mask(i0, j as int) != 0);
                        }
                    }
                    left_level1_mask == 0
                } else {
                    data_masks_zero_on(&left, level0_index, left_level1_mask)
                };
                if !left_zero {
                    proof {
                        let a1 = choose|a1: int| 0 <= a1 < 64 && left.spec_data_mask(i0, a1) != 0;
                        assert(right.spec_data_mask(i0, a1) == 0);
                        lemma_contents_differ(&left, &right, i0, a1);
                    }
                    return false;
                }
            } else if right_valid {
                // left is empty here
                let right_zero = if R::trusted_hierarchy() {
                    proof {
                        if right_level1_mask != 0 {
                            let j = lemma_nonzero_has_bit(right_level1_mask);
                            assert(right.spec_data_mask(i0, j as int) != 0);
                        }
                    }
                    right_level1_mask == 0
                } else {
                    data_masks_zero_on(&right, level0_index, right_level1_mask)
                };
                if !right_zero {
                    proof {
                        let a1 = choose|a1: int| 0 <= a1 < 64 && right.spec_data_mask(i0, a1) != 0;
                        assert(left.spec_data_mask(i0, a1) == 0);
                        lemma_contents_differ(&left, &right, i0, a1);
                    }
                    return false;
                }
            }
            // both are empty - its ok - just move on.
        }
        proof {
            assert(same_masks_on(&left, &right, i0));
            assert forall|a0: int| 0 <= a0 < 64 && bit_of(level0_mask, a0) && !bit_of(level0_iter.element, a0) implies
                #[trigger] same_masks_on(&left, &right, a0) by {
                if a0 != i0 {
                    assert(bit_at(level0_iter.element, a0 as u64) == bit_at(before, a0 as u64));
                }
            }
        }
    }
    proof {
        lemma_bit_zero();
        left.lemma_hierarchy();
        right.lemma_hierarchy();
        lemma_bit_ops(left_level0_mask, right_level0_mask);
        assert forall|a0: int| 0 <= a0 < 64 implies #[trigger] same_masks_on(&left, &right, a0) by {
            if !bit_of(level0_mask, a0) {
                assert forall|a1: int| 0 <= a1 < 64 implies #[trigger] left.spec_data_mask(a0, a1) == right.spec_data_mask(a0, a1) by {
                    if left.spec_data_mask(a0, a1) != 0 {
                        assert(bit_of(left.spec_level0_mask(), a0));
                    }
                    if right.spec_data_mask(a0, a1) != 0 {
                        assert(bit_of(right.spec_level0_mask(), a0));
                    }
                }
            }
        }
        lemma_contents_same(&left, &right);
    }
    true
}

/// Does `bitset` hold no index?
///
/// O(1) with a trusted hierarchy (the level-0 mask is checked); otherwise
/// the blocks are traversed until a non-empty one is found.
pub fn bitset_is_empty<S: LevelMasks>(bitset: S) -> (r: bool)
    requires
        bitset.spec_wf(),
    ensures
        r == (spec_contents(&bitset) == Set::<int>::empty()),
{
    proof { bitset.lemma_hierarchy(); lemma_bit_zero(); }
    if S::trusted_hierarchy() {
        let level0_mask = bitset.level0_mask();
        proof {
            if level0_mask != 0 {
                let i = lemma_nonzero_has_bit(level0_mask);
                let j = lemma_nonzero_has_bit(bitset.spec_level1_mask(i as int));
                let x = bitset.spec_data_mask(i as int, j as int);
                let k = lemma_nonzero_has_bit(x);
                lemma_index_compose(i as int, j as int, k as int);
                assert(spec_contents(&bitset).contains(i * 4096 + j * 64 + k));
            } else {
                assert forall|i: int| !#[trigger] spec_contents(&bitset).contains(i) by {
                    if 0 <= i < MAX_CAPACITY {
                        lemma_index_parts(i);
                    }
                }
                assert(spec_contents(&bitset) =~= Set::<int>::empty());
            }
        }
        return level0_mask == 0;
    }
    let ghost s = bitset;
    let mut block_iter = BlockIter::new(bitset);
    proof {
        assert forall|i: int| #[trigger] spec_contents(&s).contains(i) implies block_iter.remaining().contains(i / 64) by {
            crate::iter::lemma_contents_in_hier(&s, i);
        }
    }
    loop
        invariant
            s == bitset,
            block_iter.wf(),
            block_iter.set() == s,
            forall|i: int| #[trigger] spec_contents(&s).contains(i) ==> block_iter.remaining().contains(i / 64),
        decreases block_iter.progress().0, block_iter.progress().1,
    {
        let ghost before = block_iter;
        match block_iter.next() {
            None => {
                proof {
                    assert forall|i: int| !#[trigger] spec_contents(&s).contains(i) by {}
                    assert(spec_contents(&s) =~= Set::<int>::empty());
                }
                return true;
            },
            Some(block) => {
                let ghost kb = block.start_index as int / 64;
                if block.bit_block != 0 {
                    proof {
                        let k = lemma_nonzero_has_bit(block.bit_block);
                        crate::iter::lemma_block_index(kb, 0);
                        crate::iter::lemma_block_index(kb, k as int);
                        let i = kb * 64 + k;
                        assert(spec_contents(&s).contains(i));
                    }
                    return false;
                }
                proof {
                    lemma_bit_zero();
                    crate::iter::lemma_block_index(kb, 0);
                    assert forall|i: int| #[trigger] spec_contents(&s).contains(i) implies block_iter.remaining().contains(i / 64) by {
                        crate::iter::lemma_index_key(i);
                        if i / 64 == kb {
                            crate::iter::lemma_block_index(kb, i % 64);
                            assert(i == kb * 64 + i % 64);
                        }
                    }
                }
            },
        }
    }
}

/// Bitset interface: iteration, membership and emptiness over any bitset
/// given by its masks.
///
/// Implemented for bitsets and for references to them, so as argument accept
/// it by value.
pub trait BitSetInterface: LevelMasks {
    /// Iterator over the data blocks.
    fn block_iter(&self) -> (r: BlockIter<&Self>)
        requires
            self.spec_wf(),
        ensures
            r.wf(),
            r.set() == self,
            r.remaining() == hier_keys(self),
    {
        BlockIter::new(self)
    }

    /// Iterator over the indices, in increasing order.
    fn iter(&self) -> (r: IndexIter<&Self>)
        requires
            self.spec_wf(),
        ensures
            r.wf(),
            r.set() == self,
            r.remaining() == spec_contents(self),
            !r.started(),
    {
        IndexIter::new(self)
    }

    /// Iterator over the data blocks, taking the bitset.
    fn into_block_iter(self) -> (r: BlockIter<Self>)
        requires
            self.spec_wf(),
        ensures
            r.wf(),
            r.set() == self,
            r.remaining() == hier_keys(&self),
    {
        BlockIter::new(self)
    }

    /// Iterator over the indices, taking the bitset.
    fn into_index_iter(self) -> (r: IndexIter<Self>)
        requires
            self.spec_wf(),
        ensures
            r.wf(),
            r.set() == self,
            r.remaining() == spec_contents(&self),
            !r.started(),
    {
        IndexIter::new(self)
    }

    /// Is `index` in the bitset?
    fn contains(&self, index: usize) -> (r: bool)
        requires
            self.spec_wf(),
            index < MAX_CAPACITY,
        ensures
            r == spec_contains(self, index as int),
    {
        bitset_contains(self, index)
    }

    /// O(1) with a trusted hierarchy, O(N) otherwise.
    fn is_empty(&self) -> (r: bool)
        requires
            self.spec_wf(),
        ensures
            r == (spec_contents(self) == Set::<int>::empty()),
    {
        let r = bitset_is_empty(self);
        proof { assert(spec_contents(&self) =~= spec_contents(self)); }
        r
    }
}

impl<'a, T: BitSetInterface> BitSetInterface for &'a T {
}
} // verus!

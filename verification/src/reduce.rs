//! Reduction of a sequence of bitsets by an operation, as a lazy bitset.
use vstd::prelude::*;
use crate::bit_utils::{bit_at, bit_of, lemma_bit_zero, lemma_index_parts};
use crate::bitset::{MAX_CAPACITY, idx0, idx1, idx2};
use crate::bitset_interface::{BitSetBase, LevelMasks, spec_contains};
use crate::ops::{BitSetOp, And, Or, lemma_data_nonzero_covered};

verus! {

/// Bitsets reduction, as lazy bitset.
///
/// Constructed by [reduce](crate::reduce) and
/// [reduce_w_cache](crate::reduce_w_cache); never empty.
#[derive(Clone)]
pub struct Reduce<'a, Op, S, Cache> {
    pub op: Op,
    pub sets: &'a [S],
    pub cache: Cache,
}

/// Level-0 mask of the first `n` sets, folded left to right.
pub open spec fn fold_level0<Op: BitSetOp, S: LevelMasks>(sets: Seq<S>, n: int) -> u64
    decreases n,
{
    if n <= 1 {
        sets[0].spec_level0_mask()
    } else {
        Op::spec_hierarchy_op(fold_level0::<Op, S>(sets, n - 1), sets[n - 1].spec_level0_mask())
    }
}

/// Level-1 mask of the first `n` sets, folded left to right.
pub open spec fn fold_level1<Op: BitSetOp, S: LevelMasks>(sets: Seq<S>, n: int, l0: int) -> u64
    decreases n,
{
    if n <= 1 {
        sets[0].spec_level1_mask(l0)
    } else {
        Op::spec_hierarchy_op(fold_level1::<Op, S>(sets, n - 1, l0), sets[n - 1].spec_level1_mask(l0))
    }
}

/// Data mask of the first `n` sets, folded left to right.
pub open spec fn fold_data<Op: BitSetOp, S: LevelMasks>(sets: Seq<S>, n: int, l0: int, l1: int) -> u64
    decreases n,
{
    if n <= 1 {
        sets[0].spec_data_mask(l0, l1)
    } else {
        Op::spec_data_op(fold_data::<Op, S>(sets, n - 1, l0, l1), sets[n - 1].spec_data_mask(l0, l1))
    }
}

/// Presence of `index` in the reduction of the first `n` sets.
pub open spec fn fold_member<Op: BitSetOp, S: LevelMasks>(sets: Seq<S>, n: int, index: int) -> bool
    decreases n,
{
    if n <= 1 {
        spec_contains(&sets[0], index)
    } else {
        Op::spec_member(fold_member::<Op, S>(sets, n - 1, index), spec_contains(&sets[n - 1], index))
    }
}

/// All sets of the sequence are well formed.
pub open spec fn all_wf<S: LevelMasks>(sets: Seq<S>) -> bool {
    forall|k: int| 0 <= k < sets.len() ==> #[trigger] sets[k].spec_wf()
}

impl<'a, Op: BitSetOp, S: LevelMasks, Cache> crate::bitset_interface::BitSetInterface for Reduce<'a, Op, S, Cache> {
}

impl<'a, Op: BitSetOp, S: LevelMasks, Cache> BitSetBase for Reduce<'a, Op, S, Cache> {
    /// true if S and Op are `TrustedHierarchy`.
    open spec fn spec_trusted_hierarchy() -> bool {
        Op::spec_trusted_hierarchy() && S::spec_trusted_hierarchy()
    }

    fn trusted_hierarchy() -> (r: bool) {
        Op::trusted_hierarchy() && S::trusted_hierarchy()
    }
}

impl<'a, Op: BitSetOp, S: LevelMasks, Cache> LevelMasks for Reduce<'a, Op, S, Cache> {
    open spec fn spec_wf(&self) -> bool {
        self.sets@.len() >= 1 && all_wf(self.sets@)
    }

    open spec fn spec_level0_mask(&self) -> u64 {
        fold_level0::<Op, S>(self.sets@, self.sets@.len() as int)
    }

    open spec fn spec_level1_mask(&self, level0_index: int) -> u64 {
        fold_level1::<Op, S>(self.sets@, self.sets@.len() as int, level0_index)
    }

    open spec fn spec_data_mask(&self, level0_index: int, level1_index: int) -> u64 {
        fold_data::<Op, S>(self.sets@, self.sets@.len() as int, level0_index, level1_index)
    }

    fn level0_mask(&self) -> (r: u64) {
        let len = self.sets.len();
        let mut acc = self.sets[0].level0_mask();
        let mut i: usize = 1;
        while i < len
            invariant
                1 <= i <= len,
                len == self.sets@.len(),
                all_wf(self.sets@),
                acc == fold_level0::<Op, S>(self.sets@, i as int),
            decreases len - i,
        {
            acc = Op::hierarchy_op(acc, self.sets[i].level0_mask());
            i += 1;
        }
        acc
    }

    fn level1_mask(&self, level0_index: usize) -> (r: u64) {
        let len = self.sets.len();
        let mut acc = self.sets[0].level1_mask(level0_index);
        let mut i: usize = 1;
        while i < len
            invariant
                1 <= i <= len,
                len == self.sets@.len(),
                level0_index < 64,
                all_wf(self.sets@),
                acc == fold_level1::<Op, S>(self.sets@, i as int, level0_index as int),
            decreases len - i,
        {
            acc = Op::hierarchy_op(acc, self.sets[i].level1_mask(level0_index));
            i += 1;
        }
        acc
    }

    fn data_mask(&self, level0_index: usize, level1_index: usize) -> (r: u64) {
        let len = self.sets.len();
        let mut acc = self.sets[0].data_mask(level0_index, level1_index);
        let mut i: usize = 1;
        while i < len
            invariant
                1 <= i <= len,
                len == self.sets@.len(),
                level0_index < 64,
                level1_index < 64,
                all_wf(self.sets@),
                acc == fold_data::<Op, S>(self.sets@, i as int, level0_index as int, level1_index as int),
            decreases len - i,
        {
            acc = Op::data_op(acc, self.sets[i].data_mask(level0_index, level1_index));
            i += 1;
        }
        acc
    }

    proof fn lemma_hierarchy(&self) {
        lemma_fold_hierarchy::<Op, S>(self.sets@, self.sets@.len() as int);
    }
}

/// The folded masks of the first `n` sets keep the hierarchy properties
/// of the sets.
proof fn lemma_fold_hierarchy<Op: BitSetOp, S: LevelMasks>(sets: Seq<S>, n: int)
    requires
        1 <= n <= sets.len(),
        all_wf(sets),
    ensures
        forall|l0: int, l1: int|
            0 <= l0 < 64 && 0 <= l1 < 64 && #[trigger] fold_data::<Op, S>(sets, n, l0, l1) != 0 ==> bit_of(
                fold_level0::<Op, S>(sets, n),
                l0,
            ) && bit_of(fold_level1::<Op, S>(sets, n, l0), l1),
        forall|l0: int|
            0 <= l0 < 64 && !bit_of(fold_level0::<Op, S>(sets, n), l0) ==> #[trigger] fold_level1::<Op, S>(sets, n, l0) == 0,
        Op::spec_trusted_hierarchy() && S::spec_trusted_hierarchy() ==> forall|l0: int|
            0 <= l0 < 64 && bit_of(fold_level0::<Op, S>(sets, n), l0) ==> #[trigger] fold_level1::<Op, S>(sets, n, l0) != 0,
        Op::spec_trusted_hierarchy() && S::spec_trusted_hierarchy() ==> forall|l0: int, l1: int|
            0 <= l0 < 64 && 0 <= l1 < 64 && bit_of(fold_level0::<Op, S>(sets, n), l0) && bit_of(
                fold_level1::<Op, S>(sets, n, l0),
                l1,
            ) ==> #[trigger] fold_data::<Op, S>(sets, n, l0, l1) != 0,
    decreases n,
{
    assert(sets[n - 1].spec_wf());
    sets[n - 1].lemma_hierarchy();
    if n > 1 {
        lemma_fold_hierarchy::<Op, S>(sets, n - 1);
        let a0 = fold_level0::<Op, S>(sets, n - 1);
        let b0 = sets[n - 1].spec_level0_mask();
        assert forall|l0: int, l1: int| 0 <= l0 < 64 && 0 <= l1 < 64 && #[trigger] fold_data::<Op, S>(sets, n, l0, l1) != 0 implies
            bit_of(fold_level0::<Op, S>(sets, n), l0) && bit_of(fold_level1::<Op, S>(sets, n, l0), l1) by {
            let da = fold_data::<Op, S>(sets, n - 1, l0, l1);
            let db = sets[n - 1].spec_data_mask(l0, l1);
            let a1 = fold_level1::<Op, S>(sets, n - 1, l0);
            let b1 = sets[n - 1].spec_level1_mask(l0);
            Op::lemma_bits(a0, b0);
            Op::lemma_bits(a1, b1);
            lemma_data_nonzero_covered::<Op>(da, db, bit_at(a0, l0 as u64), bit_at(b0, l0 as u64));
            lemma_data_nonzero_covered::<Op>(da, db, bit_at(a1, l1 as u64), bit_at(b1, l1 as u64));
        }
        assert forall|l0: int| 0 <= l0 < 64 && !bit_of(fold_level0::<Op, S>(sets, n), l0) implies #[trigger] fold_level1::<Op, S>(sets, n, l0) == 0 by {
            Op::lemma_bits(a0, b0);
            Op::lemma_clean(bit_at(a0, l0 as u64), bit_at(b0, l0 as u64), fold_level1::<Op, S>(sets, n - 1, l0), sets[n - 1].spec_level1_mask(l0));
        }
        if Op::spec_trusted_hierarchy() && S::spec_trusted_hierarchy() {
            assert forall|l0: int| 0 <= l0 < 64 && bit_of(fold_level0::<Op, S>(sets, n), l0) implies #[trigger] fold_level1::<Op, S>(sets, n, l0) != 0 by {
                let a1 = fold_level1::<Op, S>(sets, n - 1, l0);
                let b1 = sets[n - 1].spec_level1_mask(l0);
                Op::lemma_bits(a0, b0);
                Op::lemma_trusted(bit_at(a0, l0 as u64), bit_at(b0, l0 as u64), a1, b1);
            }
            assert forall|l0: int, l1: int|
                0 <= l0 < 64 && 0 <= l1 < 64 && bit_of(fold_level0::<Op, S>(sets, n), l0) && bit_of(fold_level1::<Op, S>(sets, n, l0), l1)
                implies #[trigger] fold_data::<Op, S>(sets, n, l0, l1) != 0 by {
                let a1 = fold_level1::<Op, S>(sets, n - 1, l0);
                let b1 = sets[n - 1].spec_level1_mask(l0);
                let da = fold_data::<Op, S>(sets, n - 1, l0, l1);
                let db = sets[n - 1].spec_data_mask(l0, l1);
                Op::lemma_bits(a0, b0);
                Op::lemma_bits(a1, b1);
                lemma_bit_zero();
                assert(bit_at(a1, l1 as u64) ==> bit_at(a0, l0 as u64));
                assert(bit_at(b1, l1 as u64) ==> bit_at(b0, l0 as u64));
                Op::lemma_trusted(bit_at(a1, l1 as u64), bit_at(b1, l1 as u64), da, db);
            }
        }
    }
}

/// An index is in the reduction of the first `n` sets exactly when the
/// left-to-right fold of the membership rule gives true.
pub proof fn lemma_fold_contains<Op: BitSetOp, S: LevelMasks>(sets: Seq<S>, n: int, index: int)
    requires
        1 <= n <= sets.len(),
        0 <= index < MAX_CAPACITY,
    ensures
        bit_of(fold_data::<Op, S>(sets, n, idx0(index), idx1(index)), idx2(index)) == fold_member::<Op, S>(sets, n, index),
    decreases n,
{
    lemma_index_parts(index);
    if n > 1 {
        lemma_fold_contains::<Op, S>(sets, n - 1, index);
        Op::lemma_bits(fold_data::<Op, S>(sets, n - 1, idx0(index), idx1(index)), sets[n - 1].spec_data_mask(idx0(index), idx1(index)));
    }
}

/// An index is in a reduction exactly when the left-to-right fold of the
/// operation's membership rule over all sets gives true.
pub proof fn lemma_reduce_contains<'a, Op: BitSetOp, S: LevelMasks, Cache>(r: &Reduce<'a, Op, S, Cache>, index: int)
    requires
        r.sets@.len() >= 1,
    ensures
        spec_contains(r, index) == (0 <= index < MAX_CAPACITY && fold_member::<Op, S>(r.sets@, r.sets@.len() as int, index)),
{
    if 0 <= index < MAX_CAPACITY {
        lemma_fold_contains::<Op, S>(r.sets@, r.sets@.len() as int, index);
    }
}

/// Folding intersection: an index is kept exactly when every set holds it.
proof fn lemma_fold_and<S: LevelMasks>(sets: Seq<S>, n: int, index: int)
    requires
        1 <= n <= sets.len(),
    ensures
        fold_member::<And, S>(sets, n, index) == forall|k: int| 0 <= k < n ==> #[trigger] spec_contains(&sets[k], index),
    decreases n,
{
    if n > 1 {
        lemma_fold_and(sets, n - 1, index);
        if fold_member::<And, S>(sets, n, index) {
            assert forall|k: int| 0 <= k < n implies #[trigger] spec_contains(&sets[k], index) by {
                if k < n - 1 {
                    assert(fold_member::<And, S>(sets, n - 1, index));
                }
            }
        }
    }
}

/// Folding union: an index is kept exactly when some set holds it.
proof fn lemma_fold_or<S: LevelMasks>(sets: Seq<S>, n: int, index: int)
    requires
        1 <= n <= sets.len(),
    ensures
        fold_member::<Or, S>(sets, n, index) == exists|k: int| 0 <= k < n && #[trigger] spec_contains(&sets[k], index),
    decreases n,
{
    if n > 1 {
        lemma_fold_or(sets, n - 1, index);
        if exists|k: int| 0 <= k < n && #[trigger] spec_contains(&sets[k], index) {
            let k = choose|k: int| 0 <= k < n && #[trigger] spec_contains(&sets[k], index);
            if k < n - 1 {
                assert(fold_member::<Or, S>(sets, n - 1, index));
            }
        }
    } else {
        if spec_contains(&sets[0], index) {
            assert(exists|k: int| 0 <= k < 1 && #[trigger] spec_contains(&sets[k], index));
        }
    }
}

/// The intersection reduction holds exactly the indices that every set holds.
pub proof fn lemma_reduce_and_is_intersection<'a, S: LevelMasks, Cache>(r: &Reduce<'a, And, S, Cache>, index: int)
    requires
        r.sets@.len() >= 1,
    ensures
        spec_contains(r, index) == (0 <= index < MAX_CAPACITY
            && forall|k: int| 0 <= k < r.sets@.len() ==> #[trigger] spec_contains(&r.sets@[k], index)),
{
    lemma_reduce_contains(r, index);
    lemma_fold_and(r.sets@, r.sets@.len() as int, index);
}

/// The union reduction holds exactly the indices that some set holds.
pub proof fn lemma_reduce_or_is_union<'a, S: LevelMasks, Cache>(r: &Reduce<'a, Or, S, Cache>, index: int)
    requires
        r.sets@.len() >= 1,
    ensures
        spec_contains(r, index) == (0 <= index < MAX_CAPACITY
            && exists|k: int| 0 <= k < r.sets@.len() && #[trigger] spec_contains(&r.sets@[k], index)),
{
    lemma_reduce_contains(r, index);
    lemma_fold_or(r.sets@, r.sets@.len() as int, index);
}

} // verus!

//! Binary operation between two bitsets, as a lazy bitset.
use vstd::prelude::*;
use crate::bit_utils::{bit_at, bit_of};
use crate::bitset::{MAX_CAPACITY, idx0, idx1, idx2};
use crate::bitset_interface::{BitSetBase, LevelMasks, spec_contains, spec_contents};
use crate::ops::{BitSetOp, And, Or, Xor, Sub, lemma_data_nonzero_covered};

verus! {

/// Binary operation application, as lazy bitset.
///
/// Created by [apply](crate::apply). Masks are computed on demand from the
/// operands' masks.
#[derive(Clone)]
pub struct Apply<Op, S1, S2> {
    pub op: Op,
    pub s1: S1,
    pub s2: S2,
}

impl<Op, S1, S2> Apply<Op, S1, S2> {
    pub fn new(op: Op, s1: S1, s2: S2) -> (r: Self)
        ensures
            r.op == op,
            r.s1 == s1,
            r.s2 == s2,
    {
        Apply { op, s1, s2 }
    }
}

impl<Op: BitSetOp, S1: LevelMasks, S2: LevelMasks> crate::bitset_interface::BitSetInterface for Apply<Op, S1, S2> {
}

impl<Op: BitSetOp, S1: LevelMasks, S2: LevelMasks> BitSetBase for Apply<Op, S1, S2> {
    /// true if S1, S2 and Op are `TrustedHierarchy`.
    open spec fn spec_trusted_hierarchy() -> bool {
        Op::spec_trusted_hierarchy() && S1::spec_trusted_hierarchy() && S2::spec_trusted_hierarchy()
    }

    fn trusted_hierarchy() -> (r: bool) {
        Op::trusted_hierarchy() && S1::trusted_hierarchy() && S2::trusted_hierarchy()
    }
}

impl<Op: BitSetOp, S1: LevelMasks, S2: LevelMasks> LevelMasks for Apply<Op, S1, S2> {
    open spec fn spec_wf(&self) -> bool {
        self.s1.spec_wf() && self.s2.spec_wf()
    }

    open spec fn spec_level0_mask(&self) -> u64 {
        Op::spec_hierarchy_op(self.s1.spec_level0_mask(), self.s2.spec_level0_mask())
    }

    open spec fn spec_level1_mask(&self, level0_index: int) -> u64 {
        Op::spec_hierarchy_op(
            self.s1.spec_level1_mask(level0_index),
            self.s2.spec_level1_mask(level0_index),
        )
    }

    open spec fn spec_data_mask(&self, level0_index: int, level1_index: int) -> u64 {
        Op::spec_data_op(
            self.s1.spec_data_mask(level0_index, level1_index),
            self.s2.spec_data_mask(level0_index, level1_index),
        )
    }

    fn level0_mask(&self) -> (r: u64) {
        Op::hierarchy_op(self.s1.level0_mask(), self.s2.level0_mask())
    }

    fn level1_mask(&self, level0_index: usize) -> (r: u64) {
        Op::hierarchy_op(self.s1.level1_mask(level0_index), self.s2.level1_mask(level0_index))
    }

    fn data_mask(&self, level0_index: usize, level1_index: usize) -> (r: u64) {
        Op::data_op(
            self.s1.data_mask(level0_index, level1_index),
            self.s2.data_mask(level0_index, level1_index),
        )
    }

    proof fn lemma_hierarchy(&self) {
        self.s1.lemma_hierarchy();
        self.s2.lemma_hierarchy();
        let a0 = self.s1.spec_level0_mask();
        let b0 = self.s2.spec_level0_mask();
        assert forall|l0: int, l1: int| 0 <= l0 < 64 && 0 <= l1 < 64 && #[trigger] self.spec_data_mask(l0, l1) != 0 implies
            bit_of(self.spec_level0_mask(), l0) && bit_of(self.spec_level1_mask(l0), l1) by {
            let da = self.s1.spec_data_mask(l0, l1);
            let db = self.s2.spec_data_mask(l0, l1);
            let a1 = self.s1.spec_level1_mask(l0);
            let b1 = self.s2.spec_level1_mask(l0);
            Op::lemma_bits(a0, b0);
            Op::lemma_bits(a1, b1);
            lemma_data_nonzero_covered::<Op>(da, db, bit_at(a0, l0 as u64), bit_at(b0, l0 as u64));
            lemma_data_nonzero_covered::<Op>(da, db, bit_at(a1, l1 as u64), bit_at(b1, l1 as u64));
        }
        assert forall|l0: int| 0 <= l0 < 64 && !bit_of(self.spec_level0_mask(), l0) implies #[trigger] self.spec_level1_mask(l0) == 0 by {
            Op::lemma_bits(a0, b0);
            Op::lemma_clean(bit_at(a0, l0 as u64), bit_at(b0, l0 as u64), self.s1.spec_level1_mask(l0), self.s2.spec_level1_mask(l0));
        }
        if Self::spec_trusted_hierarchy() {
            assert forall|l0: int| 0 <= l0 < 64 && bit_of(self.spec_level0_mask(), l0) implies #[trigger] self.spec_level1_mask(l0) != 0 by {
                let a1 = self.s1.spec_level1_mask(l0);
                let b1 = self.s2.spec_level1_mask(l0);
                Op::lemma_bits(a0, b0);
                Op::lemma_trusted(bit_at(a0, l0 as u64), bit_at(b0, l0 as u64), a1, b1);
            }
            assert forall|l0: int, l1: int|
                0 <= l0 < 64 && 0 <= l1 < 64 && bit_of(self.spec_level0_mask(), l0) && bit_of(self.spec_level1_mask(l0), l1)
                implies #[trigger] self.spec_data_mask(l0, l1) != 0 by {
                let a1 = self.s1.spec_level1_mask(l0);
                let b1 = self.s2.spec_level1_mask(l0);
                let da = self.s1.spec_data_mask(l0, l1);
                let db = self.s2.spec_data_mask(l0, l1);
                Op::lemma_bits(a0, b0);
                Op::lemma_bits(a1, b1);
                crate::bit_utils::lemma_bit_zero();
                assert(bit_at(a1, l1 as u64) ==> bit_at(a0, l0 as u64));
                assert(bit_at(b1, l1 as u64) ==> bit_at(b0, l0 as u64));
                Op::lemma_trusted(bit_at(a1, l1 as u64), bit_at(b1, l1 as u64), da, db);
            }
        }
    }
}

/// An index is in the result of an operation exactly when the operation's
/// membership rule holds for its presence in the two operands.
pub proof fn lemma_apply_contains<Op: BitSetOp, S1: LevelMasks, S2: LevelMasks>(a: &Apply<Op, S1, S2>, index: int)
    ensures
        spec_contains(a, index) == (0 <= index < MAX_CAPACITY && Op::spec_member(
            spec_contains(&a.s1, index),
            spec_contains(&a.s2, index),
        )),
{
    if 0 <= index < MAX_CAPACITY {
        crate::bit_utils::lemma_index_parts(index);
        Op::lemma_bits(a.s1.spec_data_mask(idx0(index), idx1(index)), a.s2.spec_data_mask(idx0(index), idx1(index)));
    }
}

/// The intersection of two bitsets holds exactly the indices in both.
pub proof fn lemma_and_is_intersection<S1: LevelMasks, S2: LevelMasks>(a: &Apply<And, S1, S2>)
    ensures
        spec_contents(a) == spec_contents(&a.s1).intersect(spec_contents(&a.s2)),
{
    assert forall|i: int| #[trigger] spec_contents(a).contains(i) == spec_contents(&a.s1).intersect(spec_contents(&a.s2)).contains(i) by {
        lemma_apply_contains(a, i);
    }
    assert(spec_contents(a) =~= spec_contents(&a.s1).intersect(spec_contents(&a.s2)));
}

/// The union of two bitsets holds exactly the indices in either.
pub proof fn lemma_or_is_union<S1: LevelMasks, S2: LevelMasks>(a: &Apply<Or, S1, S2>)
    ensures
        spec_contents(a) == spec_contents(&a.s1).union(spec_contents(&a.s2)),
{
    assert forall|i: int| #[trigger] spec_contents(a).contains(i) == spec_contents(&a.s1).union(spec_contents(&a.s2)).contains(i) by {
        lemma_apply_contains(a, i);
    }
    assert(spec_contents(a) =~= spec_contents(&a.s1).union(spec_contents(&a.s2)));
}

/// The symmetric difference holds exactly the indices in one operand only.
pub proof fn lemma_xor_is_symmetric_difference<S1: LevelMasks, S2: LevelMasks>(a: &Apply<Xor, S1, S2>)
    ensures
        spec_contents(a) == spec_contents(&a.s1).difference(spec_contents(&a.s2)).union(
            spec_contents(&a.s2).difference(spec_contents(&a.s1)),
        ),
{
    let r = spec_contents(&a.s1).difference(spec_contents(&a.s2)).union(
        spec_contents(&a.s2).difference(spec_contents(&a.s1)));
    assert forall|i: int| #[trigger] spec_contents(a).contains(i) == r.contains(i) by {
        lemma_apply_contains(a, i);
    }
    assert(spec_contents(a) =~= r);
}

/// The difference holds exactly the indices of the left operand that are
/// not in the right one.
pub proof fn lemma_sub_is_difference<S1: LevelMasks, S2: LevelMasks>(a: &Apply<Sub, S1, S2>)
    ensures
        spec_contents(a) == spec_contents(&a.s1).difference(spec_contents(&a.s2)),
{
    assert forall|i: int| #[trigger] spec_contents(a).contains(i) == spec_contents(&a.s1).difference(spec_contents(&a.s2)).contains(i) by {
        lemma_apply_contains(a, i);
    }
    assert(spec_contents(a) =~= spec_contents(&a.s1).difference(spec_contents(&a.s2)));
}

} // verus!

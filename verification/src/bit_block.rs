//! Bit blocks: the masks that the levels of a bitset are built from.
use vstd::prelude::*;
use crate::bit_utils::{bit_at, bit_of, bit_count, count_ones, set_bit_unchecked, get_bit_unchecked,
    lemma_bit_zero, lemma_no_bit_zero, one_bits_iter, traverse_one_bits, lemma_lowest_bit};
use crate::bit_queue::{BitQueue, PrimitiveBitQueue};
use core::ops::ControlFlow;

verus! {

/// Bit block: a fixed-size block of bits.
pub trait BitBlock: Copy + Sized {
    /// Is bit `i` raised?
    spec fn spec_bit(&self, i: int) -> bool;

    /// Size in bits.
    spec fn spec_size() -> nat;

    /// Number of raised bits.
    spec fn spec_count(&self) -> nat;

    /// Size in bits.
    fn size() -> (r: usize)
        ensures
            r == Self::spec_size(),
    ;

    /// Block with no raised bit.
    fn zero() -> (r: Self)
        ensures
            forall|i: int| !#[trigger] r.spec_bit(i),
    ;

    /// Has the block no raised bit?
    fn is_zero(&self) -> (r: bool)
        ensures
            r == forall|i: int| 0 <= i < Self::spec_size() ==> !#[trigger] self.spec_bit(i),
    ;

    /// Sets bit `bit_index` to `flag`; returns the previous bit.
    fn set_bit_unchecked(&mut self, bit_index: usize, flag: bool) -> (r: bool)
        requires
            bit_index < Self::spec_size(),
        ensures
            r == old(self).spec_bit(bit_index as int),
            forall|i: int| #[trigger] final(self).spec_bit(i) == if i == bit_index { flag } else { old(self).spec_bit(i) },
    ;

    /// Is bit `bit_index` raised?
    fn get_bit_unchecked(&self, bit_index: usize) -> (r: bool)
        requires
            bit_index < Self::spec_size(),
        ensures
            r == self.spec_bit(bit_index as int),
    ;

    /// Number of raised bits.
    fn count_ones(&self) -> (r: usize)
        ensures
            r == self.spec_count(),
    ;

    /// Calls `f` with each raised bit, lowest first, until it breaks.
    ///
    /// Returns `Break` if traverse was interrupted (`f` returns `Break`).
    /// `f` is called only on raised bits, each time after every lower raised
    /// bit continued.
    fn traverse_bits<B, F: FnMut(usize) -> ControlFlow<B>>(&self, f: F) -> (r: ControlFlow<B>)
        requires
            forall|i: usize| #![trigger call_requires(f, (i,))] self.spec_bit(i as int)
                && (forall|j: usize| j < i && self.spec_bit(j as int) ==>
                    #[trigger] call_ensures(f, (j,), ControlFlow::Continue(())))
                ==> call_requires(f, (i,)),
        ensures
            r is Continue ==> forall|i: usize| self.spec_bit(i as int) ==> #[trigger] call_ensures(f, (i,),
                ControlFlow::Continue(())),
            r matches ControlFlow::Break(b) ==> exists|i: usize| self.spec_bit(i as int)
                && #[trigger] call_ensures(f, (i,), ControlFlow::Break(b))
                && forall|j: usize| j < i && self.spec_bit(j as int) ==>
                    #[trigger] call_ensures(f, (j,), ControlFlow::Continue(())),
    ;

    /// Calls `f` with each raised bit, lowest first: only on raised bits,
    /// each time after every lower raised bit.
    fn for_each_bit<F: FnMut(usize)>(&self, f: F)
        requires
            forall|i: usize| #![trigger call_requires(f, (i,))] self.spec_bit(i as int)
                && (forall|j: usize| j < i && self.spec_bit(j as int) ==> #[trigger] call_ensures(f, (j,), ()))
                ==> call_requires(f, (i,)),
        ensures
            forall|i: usize| self.spec_bit(i as int) ==> #[trigger] call_ensures(f, (i,), ()),
    ;

    /// Queue of the raised bits.
    type BitsIter: BitQueue;

    fn into_bits_iter(self) -> (r: Self::BitsIter)
        ensures
            forall|i: int| #[trigger] r.spec_queued(i) == self.spec_bit(i),
    ;
}

impl BitBlock for u64 {
    open spec fn spec_bit(&self, i: int) -> bool {
        bit_of(*self, i)
    }

    open spec fn spec_size() -> nat {
        64
    }

    open spec fn spec_count(&self) -> nat {
        bit_count(*self, 64)
    }

    fn size() -> (r: usize) {
        64
    }

    fn zero() -> (r: Self) {
        proof { lemma_bit_zero(); }
        0
    }

    fn is_zero(&self) -> (r: bool) {
        proof {
            lemma_bit_zero();
            if forall|i: int| 0 <= i < 64 ==> !#[trigger] bit_of(*self, i) {
                assert forall|j: u64| j < 64 implies !#[trigger] bit_at(*self, j) by {
                    assert(!bit_of(*self, j as int));
                }
                lemma_no_bit_zero(*self);
            }
            if *self != 0 {
                let j = crate::bit_utils::lemma_nonzero_has_bit(*self);
                assert(self.spec_bit(j as int));
            }
        }
        *self == 0
    }

    fn set_bit_unchecked(&mut self, bit_index: usize, flag: bool) -> (r: bool) {
        let r = set_bit_unchecked(self, bit_index, flag);
        proof {
            crate::bit_utils::lemma_bit_high(*self);
            crate::bit_utils::lemma_bit_high(*old(self));
        }
        r
    }

    fn get_bit_unchecked(&self, bit_index: usize) -> (r: bool) {
        get_bit_unchecked(*self, bit_index)
    }

    fn count_ones(&self) -> (r: usize) {
        count_ones(*self)
    }

    fn traverse_bits<B, F: FnMut(usize) -> ControlFlow<B>>(&self, f: F) -> (r: ControlFlow<B>) {
        traverse_one_bits(*self, f)
    }

    fn for_each_bit<F: FnMut(usize)>(&self, f: F) {
        let mut g = f;
        let mut it = one_bits_iter(*self);
        while it.element != 0
            invariant
                g == f,
                forall|i: usize| #![trigger call_requires(f, (i,))] bit_of(*self, i as int)
                    && (forall|j: usize| j < i && bit_of(*self, j as int) ==> #[trigger] call_ensures(f, (j,), ()))
                    ==> call_requires(f, (i,)),
                forall|j: u64| j < 64 && #[trigger] bit_at(it.element, j) ==> bit_at(*self, j),
                forall|i: usize| bit_of(*self, i as int) && !bit_of(it.element, i as int) ==>
                    #[trigger] call_ensures(f, (i,), ()),
            decreases it.element,
        {
            let ghost before = it.element;
            proof { lemma_lowest_bit(before); }
            match it.next() {
                None => {},
                Some(index) => {
                    proof {
                        assert(bit_of(*self, index as int));
                        assert forall|j: usize| j < index && bit_of(*self, j as int) implies
                            #[trigger] call_ensures(f, (j,), ()) by {
                            assert(!bit_at(before, j as u64));
                            assert(!bit_of(before, j as int));
                        }
                    }
                    g(index);
                    proof {
                        assert forall|i: usize| bit_of(*self, i as int) && !bit_of(it.element, i as int) implies
                            #[trigger] call_ensures(f, (i,), ()) by {
                            if i != index {
                                assert(bit_at(it.element, i as u64) == bit_at(before, i as u64));
                            }
                        }
                    }
                },
            }
        }
        proof { lemma_bit_zero(); }
    }

    type BitsIter = PrimitiveBitQueue;

    fn into_bits_iter(self) -> (r: PrimitiveBitQueue) {
        PrimitiveBitQueue::new(self)
    }
}

} // verus!

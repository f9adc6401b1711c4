//! Data blocks: a 64-bit block of the data level with its start index.
use vstd::prelude::*;
use crate::bit_utils::{bit_at, bit_of, bit_count, count_ones, lowest_bit};
use crate::bit_queue::{BitQueue, PrimitiveBitQueue};
use crate::ordered::{ascending, strictly_increasing, lemma_ascending, lemma_ascending_pop};
use core::ops::ControlFlow;

verus! {

/// Start index of the data block at `(level0_index, level1_index)`.
pub fn data_block_start_index(level0_index: usize, level1_index: usize) -> (r: usize)
    requires
        level0_index < 64,
        level1_index < 64,
    ensures
        r == level0_index * 4096 + level1_index * 64,
{
    let level0_offset = level0_index << 12usize;
    let level1_offset = level1_index << 6usize;
    assert(level0_index << 12usize == level0_index * 4096) by (bit_vector) requires level0_index < 64;
    assert(level1_index << 6usize == level1_index * 64) by (bit_vector) requires level1_index < 64;
    level0_offset + level1_offset
}

/// Bit block with offset: its raised bit `j` stands for index `start_index + j`.
#[derive(Clone, Copy, Debug, PartialEq, Eq, Structural)]
pub struct DataBlock {
    pub start_index: usize,
    pub bit_block: u64,
}

impl DataBlock {
    /// Is `index` in the block?
    pub open spec fn has(&self, index: int) -> bool {
        self.start_index <= index < self.start_index + 64 && bit_of(self.bit_block, index - self.start_index)
    }

    /// The indices in the block.
    pub open spec fn indices(&self) -> Set<int> {
        Set::new(|i: int| self.has(i))
    }

    /// Block starting at `start_index`, which must be a multiple of 64.
    pub fn new(start_index: usize, bit_block: u64) -> (r: DataBlock)
        requires
            start_index % 64 == 0,
        ensures
            r.start_index == start_index,
            r.bit_block == bit_block,
    {
        DataBlock { start_index, bit_block }
    }

    /// Destruct `DataBlock` into `(start_index, bit_block)`.
    pub fn into_parts(self) -> (r: (usize, u64))
        ensures
            r == (self.start_index, self.bit_block),
    {
        (self.start_index, self.bit_block)
    }

    /// Elements count in the block.
    pub fn len(&self) -> (r: usize)
        ensures
            r == bit_count(self.bit_block, 64),
    {
        count_ones(self.bit_block)
    }

    pub fn is_empty(&self) -> (r: bool)
        ensures
            r == (self.bit_block == 0),
    {
        self.bit_block == 0
    }

    /// Iterator over the block's indices, lowest first: it returns as many
    /// indices as [len](Self::len) counts.
    pub fn iter(&self) -> (r: DataBlockIter)
        ensures
            r.start_index == self.start_index,
            r.bit_block_iter.bits() == self.bit_block,
            r.remaining() == self.indices(),
            r.remaining().finite(),
            r.remaining().len() == bit_count(self.bit_block, 64),
    {
        let r = DataBlockIter { start_index: self.start_index, bit_block_iter: PrimitiveBitQueue::new(self.bit_block) };
        proof {
            r.lemma_remaining_len();
            assert(r.remaining() =~= self.indices());
        }
        r
    }

    /// Same as [iter](Self::iter), consuming the block.
    pub fn into_iter(self) -> (r: DataBlockIter)
        ensures
            r.start_index == self.start_index,
            r.bit_block_iter.bits() == self.bit_block,
            r.remaining() == self.indices(),
            r.remaining().finite(),
            r.remaining().len() == bit_count(self.bit_block, 64),
    {
        self.iter()
    }
}

/// [DataBlock] iterator.
#[derive(Clone, Copy)]
pub struct DataBlockIter {
    pub start_index: usize,
    pub bit_block_iter: PrimitiveBitQueue,
}

impl DataBlockIter {
    /// Is `index` still to be returned?
    pub open spec fn has(&self, index: int) -> bool {
        self.start_index <= index < self.start_index + 64 && bit_of(self.bit_block_iter.bits(), index - self.start_index)
    }

    /// Indices still to be returned.
    pub open spec fn remaining(&self) -> Set<int> {
        Set::new(|index: int| self.has(index))
    }

    /// The iterator can produce its indices without overflow.
    pub open spec fn wf(&self) -> bool {
        forall|j: int| #[trigger] bit_of(self.bit_block_iter.bits(), j) ==> self.start_index + j <= usize::MAX
    }

    /// The remaining indices are as many as the raised bits.
    pub proof fn lemma_remaining_len(&self)
        ensures
            self.remaining().finite(),
            self.remaining().len() == bit_count(self.bit_block_iter.bits(), 64),
    {
        let bits = self.bit_block_iter.bits();
        let st = self.start_index as int;
        lemma_bits_in_range_len(bits, st, 64);
        assert(self.remaining() =~= Set::new(|i: int| st <= i < st + 64 && bit_of(bits, i - st)));
    }

    /// Pops the lowest remaining index.
    pub fn next(&mut self) -> (r: Option<usize>)
        requires
            old(self).wf(),
        ensures
            final(self).wf(),
            final(self).start_index == old(self).start_index,
            match r {
                None => old(self).bit_block_iter.bits() == 0 && final(self).bit_block_iter.bits() == 0
                    && old(self).remaining() == Set::<int>::empty(),
                Some(index) => {
                    &&& old(self).bit_block_iter.bits() != 0
                    &&& index == old(self).start_index + lowest_bit(old(self).bit_block_iter.bits())
                    &&& old(self).has(index as int)
                    &&& forall|j: u64| j < 64 ==> #[trigger] bit_at(final(self).bit_block_iter.bits(), j)
                        == (j as int != lowest_bit(old(self).bit_block_iter.bits()) && bit_at(old(self).bit_block_iter.bits(), j))
                    &&& final(self).bit_block_iter.bits() < old(self).bit_block_iter.bits()
                    &&& forall|x: int| #[trigger] old(self).remaining().contains(x) ==> index <= x
                    &&& final(self).remaining() == old(self).remaining().remove(index as int)
                    &&& ascending(old(self).remaining()) == seq![index as int] + ascending(final(self).remaining())
                },
            },
    {
        let ghost old_self = *self;
        let ghost old_bits = self.bit_block_iter.bits();
        proof { crate::bit_utils::lemma_lowest_bit(old_bits); }
        match self.bit_block_iter.next() {
            Some(index) => {
                let start = self.start_index;
                proof {
                    assert(bit_of(old_bits, index as int));
                    assert forall|j: int| #[trigger] bit_of(self.bit_block_iter.bits(), j) implies start + j <= usize::MAX by {
                        assert(bit_at(self.bit_block_iter.bits(), j as u64));
                        assert(bit_of(old_bits, j));
                    }
                }
                let r = start + index;
                proof {
                    let low = lowest_bit(old_bits);
                    assert forall|x: int| #[trigger] old_self.remaining().contains(x) implies r <= x by {
                        let j = x - start;
                        if j < low {
                            assert(!bit_at(old_bits, j as u64));
                        }
                    }
                    assert forall|x: int| #[trigger] self.remaining().contains(x)
                        == old_self.remaining().remove(r as int).contains(x) by {
                        if start <= x < start + 64 {
                            let j = x - start;
                            assert(bit_at(self.bit_block_iter.bits(), j as u64)
                                == (j != low && bit_at(old_bits, j as u64)));
                        }
                    }
                    assert(self.remaining() =~= old_self.remaining().remove(r as int));
                    old_self.lemma_remaining_len();
                    lemma_ascending_pop(old_self.remaining(), r as int);
                }
                Some(r)
            },
            None => {
                proof {
                    crate::bit_utils::lemma_bit_zero();
                    assert(old_self.remaining() =~= Set::<int>::empty());
                }
                None
            },
        }
    }
}


impl DataBlockIter {
    /// Calls `f` with each remaining index, lowest first, until it breaks.
    ///
    /// `Continue` comes back when `f` continued on every index.
    pub fn traverse<B, F: FnMut(usize) -> ControlFlow<B>>(self, f: F) -> (r: ControlFlow<B>)
        requires
            self.wf(),
            forall|i: usize| #![trigger call_requires(f, (i,))] self.has(i as int)
                && (forall|j: usize| j < i && self.has(j as int) ==>
                    #[trigger] call_ensures(f, (j,), ControlFlow::Continue(())))
                ==> call_requires(f, (i,)),
        ensures
            r is Continue ==> forall|i: usize| self.has(i as int) ==> #[trigger] call_ensures(f, (i,), ControlFlow::Continue(())),
            r matches ControlFlow::Break(b) ==> exists|i: usize| self.has(i as int)
                && #[trigger] call_ensures(f, (i,), ControlFlow::Break(b))
                && forall|j: usize| j < i && self.has(j as int) ==>
                    #[trigger] call_ensures(f, (j,), ControlFlow::Continue(())),
    {
        let mut g = f;
        let mut it = self;
        loop
            invariant
                it.wf(),
                it.start_index == self.start_index,
                g == f,
                forall|i: usize| #![trigger call_requires(f, (i,))] self.has(i as int)
                    && (forall|j: usize| j < i && self.has(j as int) ==>
                        #[trigger] call_ensures(f, (j,), ControlFlow::Continue(())))
                    ==> call_requires(f, (i,)),
                forall|i: int| #[trigger] it.has(i) ==> self.has(i),
                forall|i: usize| self.has(i as int) && !it.has(i as int) ==>
                    #[trigger] call_ensures(f, (i,), ControlFlow::Continue(())),
            decreases it.bit_block_iter.bits(),
        {
            let ghost before = it;
            match it.next() {
                None => {
                    proof { crate::bit_utils::lemma_bit_zero(); }
                    return ControlFlow::Continue(());
                },
                Some(index) => {
                    proof {
                        assert forall|i: int| #[trigger] it.has(i) implies self.has(i) by {
                            assert(before.has(i));
                        }
                    }
                    proof {
                        assert(self.has(index as int));
                        assert forall|j: usize| j < index && self.has(j as int) implies
                            #[trigger] call_ensures(f, (j,), ControlFlow::Continue(())) by {
                            if before.has(j as int) {
                                assert(before.remaining().contains(j as int));
                            }
                        }
                    }
                    let res = g(index);
                    match res {
                        ControlFlow::Break(b) => {
                            proof {
                                assert(self.has(index as int));
                                assert forall|j: usize| j < index && self.has(j as int) implies
                                    #[trigger] call_ensures(f, (j,), ControlFlow::Continue(())) by {
                                    if before.has(j as int) {
                                        assert(before.remaining().contains(j as int));
                                    }
                                }
                            }
                            return ControlFlow::Break(b);
                        },
                        ControlFlow::Continue(c) => {
                            proof {
                                assert(c == ());
                                assert forall|i: usize| self.has(i as int) && !it.has(i as int) implies
                                    #[trigger] call_ensures(f, (i,), ControlFlow::Continue(())) by {
                                    if i != index {
                                        assert(!before.has(i as int));
                                    }
                                }
                            }
                        },
                    }
                },
            }
        }
    }
}

impl DataBlockIter {
    /// Calls `f` with each remaining index, lowest first.
    pub fn for_each<F: FnMut(usize)>(self, f: F)
        requires
            self.wf(),
            forall|i: usize| #![trigger call_requires(f, (i,))] self.has(i as int)
                && (forall|j: usize| j < i && self.has(j as int) ==> #[trigger] call_ensures(f, (j,), ()))
                ==> call_requires(f, (i,)),
        ensures
            forall|i: usize| self.has(i as int) ==> #[trigger] call_ensures(f, (i,), ()),
    {
        let mut g = f;
        let mut it = self;
        loop
            invariant
                it.wf(),
                it.start_index == self.start_index,
                g == f,
                forall|i: usize| #![trigger call_requires(f, (i,))] self.has(i as int)
                    && (forall|j: usize| j < i && self.has(j as int) ==> #[trigger] call_ensures(f, (j,), ()))
                    ==> call_requires(f, (i,)),
                forall|i: int| #[trigger] it.has(i) ==> self.has(i),
                forall|i: usize| self.has(i as int) && !it.has(i as int) ==> #[trigger] call_ensures(f, (i,), ()),
            decreases it.bit_block_iter.bits(),
        {
            let ghost before = it;
            match it.next() {
                None => {
                    proof { crate::bit_utils::lemma_bit_zero(); }
                    return;
                },
                Some(index) => {
                    proof {
                        assert forall|i: int| #[trigger] it.has(i) implies self.has(i) by {
                            assert(before.has(i));
                        }
                    }
                    proof {
                        assert(self.has(index as int));
                        assert forall|j: usize| j < index && self.has(j as int) implies
                            #[trigger] call_ensures(f, (j,), ()) by {
                            if before.has(j as int) {
                                assert(before.remaining().contains(j as int));
                            }
                        }
                    }
                    g(index);
                    proof {
                        assert forall|i: usize| self.has(i as int) && !it.has(i as int) implies
                            #[trigger] call_ensures(f, (i,), ()) by {
                            if i != index {
                                assert(!before.has(i as int));
                            }
                        }
                    }
                },
            }
        }
    }
}

impl DataBlock {
    /// Calls `f` with each index of the block, lowest first, until it breaks.
    ///
    /// `Continue` comes back when `f` continued on every index.
    pub fn traverse<B, F: FnMut(usize) -> ControlFlow<B>>(&self, f: F) -> (r: ControlFlow<B>)
        requires
            forall|j: int| #[trigger] bit_of(self.bit_block, j) ==> self.start_index + j <= usize::MAX,
            forall|i: usize| #![trigger call_requires(f, (i,))] self.has(i as int)
                && (forall|j: usize| j < i && self.has(j as int) ==>
                    #[trigger] call_ensures(f, (j,), ControlFlow::Continue(())))
                ==> call_requires(f, (i,)),
        ensures
            r is Continue ==> forall|i: usize| self.has(i as int) ==> #[trigger] call_ensures(f, (i,), ControlFlow::Continue(())),
            r matches ControlFlow::Break(b) ==> exists|i: usize| self.has(i as int)
                && #[trigger] call_ensures(f, (i,), ControlFlow::Break(b))
                && forall|j: usize| j < i && self.has(j as int) ==>
                    #[trigger] call_ensures(f, (j,), ControlFlow::Continue(())),
    {
        let it = self.iter();
        proof {
            assert forall|i: int| #[trigger] it.has(i) == self.has(i) by {}
        }
        let r = it.traverse(f);
        proof {
            if let ControlFlow::Break(b) = &r {
                let i = choose|i: usize| it.has(i as int) && #[trigger] call_ensures(f, (i,), ControlFlow::Break(*b))
                    && forall|j: usize| j < i && it.has(j as int) ==>
                        #[trigger] call_ensures(f, (j,), ControlFlow::Continue(()));
                assert(self.has(i as int));
                assert forall|j: usize| j < i && self.has(j as int) implies
                    #[trigger] call_ensures(f, (j,), ControlFlow::Continue(())) by {
                    assert(it.has(j as int));
                }
            }
        }
        r
    }

    /// Calls `f` with each index of the block, lowest first.
    pub fn for_each<F: FnMut(usize)>(&self, f: F)
        requires
            forall|j: int| #[trigger] bit_of(self.bit_block, j) ==> self.start_index + j <= usize::MAX,
            forall|i: usize| #![trigger call_requires(f, (i,))] self.has(i as int)
                && (forall|j: usize| j < i && self.has(j as int) ==> #[trigger] call_ensures(f, (j,), ()))
                ==> call_requires(f, (i,)),
        ensures
            forall|i: usize| self.has(i as int) ==> #[trigger] call_ensures(f, (i,), ()),
    {
        let mut g = f;
        let mut it = self.iter();
        loop
            invariant
                it.wf(),
                it.start_index == self.start_index,
                g == f,
                forall|i: usize| #![trigger call_requires(f, (i,))] self.has(i as int)
                    && (forall|j: usize| j < i && self.has(j as int) ==> #[trigger] call_ensures(f, (j,), ()))
                    ==> call_requires(f, (i,)),
                forall|i: int| #[trigger] it.has(i) ==> self.has(i),
                forall|i: int| #[trigger] self.has(i) == (it.has(i) || (self.has(i) && !it.has(i))),
                forall|i: usize| self.has(i as int) && !it.has(i as int) ==> #[trigger] call_ensures(f, (i,), ()),
            decreases it.bit_block_iter.bits(),
        {
            let ghost before = it;
            match it.next() {
                None => {
                    proof { crate::bit_utils::lemma_bit_zero(); }
                    return;
                },
                Some(index) => {
                    proof {
                        assert forall|i: int| #[trigger] it.has(i) implies self.has(i) by {
                            assert(before.has(i));
                        }
                    }
                    proof {
                        assert(self.has(index as int));
                        assert forall|j: usize| j < index && self.has(j as int) implies
                            #[trigger] call_ensures(f, (j,), ()) by {
                            if before.has(j as int) {
                                assert(before.remaining().contains(j as int));
                            }
                        }
                    }
                    g(index);
                    proof {
                        assert forall|i: usize| self.has(i as int) && !it.has(i as int) implies
                            #[trigger] call_ensures(f, (i,), ()) by {
                            if i != index {
                                assert(!before.has(i as int));
                            }
                        }
                    }
                },
            }
        }
    }
}
/// Among the first `n` bits, the raised ones placed from `start` on are
/// `bit_count(bits, n)` indices.
pub proof fn lemma_bits_in_range_len(bits: u64, start: int, n: int)
    requires
        0 <= n <= 64,
    ensures
        Set::new(|i: int| start <= i < start + n && bit_of(bits, i - start)).finite(),
        Set::new(|i: int| start <= i < start + n && bit_of(bits, i - start)).len() == bit_count(bits, n),
    decreases n,
{
    let s = Set::new(|i: int| start <= i < start + n && bit_of(bits, i - start));
    if n == 0 {
        assert(s =~= Set::<int>::empty());
    } else {
        lemma_bits_in_range_len(bits, start, n - 1);
        let p = Set::new(|i: int| start <= i < start + (n - 1) && bit_of(bits, i - start));
        if bit_at(bits, (n - 1) as u64) {
            assert(s =~= p.insert(start + n - 1));
            assert(!p.contains(start + n - 1));
        } else {
            assert(s =~= p);
        }
    }
}

/// Iterating a data block returns its indices in increasing order, each
/// once, as many as [DataBlock::len] counts: the iterator of `b` has these
/// indices remaining, and each call of `next` returns the first of
/// `ascending` of what remains.
pub proof fn lemma_data_block_iteration(b: DataBlock)
    ensures
        b.indices().finite(),
        strictly_increasing(ascending(b.indices())),
        ascending(b.indices()).len() == bit_count(b.bit_block, 64),
        forall|k: int| 0 <= k < ascending(b.indices()).len()
            ==> b.has(#[trigger] ascending(b.indices())[k]),
        forall|x: int| b.has(x) ==> #[trigger] ascending(b.indices()).contains(x),
{
    let s = b.indices();
    lemma_bits_in_range_len(b.bit_block, b.start_index as int, 64);
    assert(s =~= Set::new(|i: int| b.start_index <= i < b.start_index + 64 && bit_of(b.bit_block, i - b.start_index)));
    lemma_ascending(s);
    assert forall|x: int| b.has(x) implies #[trigger] ascending(s).contains(x) by {
        assert(s.contains(x));
    }
}

} // verus!

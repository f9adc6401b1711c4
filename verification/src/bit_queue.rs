//! Queue of raised bits of a bit block.
use vstd::prelude::*;
use crate::bit_utils::{OneBitsIter, one_bits_iter, bit_at, bit_of, lowest_bit, lemma_lowest_bit,
    lemma_zero_first_n, lemma_bit_zero, saturating_shl, array_bit, lemma_array_pos, lemma_fill_word, fill_word};

verus! {

/// Queue of 1 bits.
///
/// Pop first set bit on iteration. "Consumed" bit replaced with zero.
pub trait BitQueue: Sized {
    /// Is bit `j` still queued?
    spec fn spec_queued(&self, j: int) -> bool;

    /// Number of bits of the queue.
    spec fn spec_len() -> nat;

    /// All bits 0. Iterator returns None.
    fn empty() -> (r: Self)
        requires
            0 < Self::spec_len() <= usize::MAX,
        ensures
            forall|j: int| !#[trigger] r.spec_queued(j),
    ;

    /// All bits 1.
    fn filled() -> (r: Self)
        requires
            0 < Self::spec_len() <= usize::MAX,
        ensures
            forall|j: int| #[trigger] r.spec_queued(j) == (0 <= j < Self::spec_len()),
    ;

    /// Remove first n bits. (Set 0)
    ///
    /// If n >= BitQueue len - make it empty.
    fn zero_first_n(&mut self, n: usize)
        ensures
            forall|j: int| #[trigger] final(self).spec_queued(j) == (old(self).spec_queued(j) && j >= n),
    ;

    /// Current index. Equals len - if iteration finished.
    fn current(&self) -> (r: usize)
        ensures
            forall|j: int| 0 <= j < r ==> !#[trigger] self.spec_queued(j),
            r <= Self::spec_len(),
    ;
}

/// [BitQueue] for a 64-bit word.
#[derive(Clone, Copy)]
pub struct PrimitiveBitQueue {
    pub bit_block_iter: OneBitsIter,
}

impl PrimitiveBitQueue {
    pub fn new(value: u64) -> (r: Self)
        ensures
            r.bit_block_iter.element == value,
    {
        PrimitiveBitQueue { bit_block_iter: one_bits_iter(value) }
    }

    /// The queued bits, as a word.
    pub open spec fn bits(&self) -> u64 {
        self.bit_block_iter.element
    }

    /// Pops the lowest queued bit.
    pub fn next(&mut self) -> (r: Option<usize>)
        ensures
            old(self).bits() == 0 ==> r.is_none() && final(self).bits() == 0,
            old(self).bits() != 0 ==> r == Some(lowest_bit(old(self).bits()) as usize),
            old(self).bits() != 0 ==> forall|j: u64| j < 64 ==> #[trigger] bit_at(final(self).bits(), j)
                == (j as int != lowest_bit(old(self).bits()) && bit_at(old(self).bits(), j)),
            final(self).bits() <= old(self).bits(),
            old(self).bits() != 0 ==> final(self).bits() < old(self).bits(),
    {
        self.bit_block_iter.next()
    }
}

impl BitQueue for PrimitiveBitQueue {
    open spec fn spec_queued(&self, j: int) -> bool {
        bit_of(self.bits(), j)
    }

    open spec fn spec_len() -> nat {
        64
    }

    fn empty() -> (r: Self) {
        let r = Self::new(0);
        proof {
            lemma_bit_zero();
            assert forall|j: int| !#[trigger] r.spec_queued(j) by {
                if 0 <= j < 64 {
                    assert(!bit_at(0u64, j as u64));
                }
            }
        }
        r
    }

    fn filled() -> (r: Self) {
        let r = Self::new(u64::MAX);
        proof {
            assert forall|j: u64| j < 64 implies #[trigger] bit_at(u64::MAX, j) by {
                assert((0xffff_ffff_ffff_ffffu64 >> j) & 1u64 == 1u64) by (bit_vector) requires j < 64;
            }
        }
        r
    }

    fn zero_first_n(&mut self, n: usize) {
        let mask = saturating_shl(u64::MAX, n);
        let ghost old_bits = self.bits();
        self.bit_block_iter.element = self.bit_block_iter.element & mask;
        proof {
            if n >= 64 {
                assert(old_bits & 0u64 == 0u64) by (bit_vector);
                lemma_bit_zero();
            } else {
                lemma_zero_first_n(old_bits, n as u64);
            }
        }
    }

    fn current(&self) -> (r: usize)
        ensures
            r == lowest_bit(self.bits()),
            r < 64 ==> self.spec_queued(r as int),
    {
        proof { lemma_lowest_bit(self.bits()); }
        self.bit_block_iter.element.trailing_zeros() as usize
    }
}

/// [BitQueue] for an array of words: bit `j` lies in word `j / 64`.
pub struct ArrayBitQueue<const N: usize> {
    /// first element - always active one.
    bit_blocks: [u64; N],
    bit_block_index: usize,
}

impl<const N: usize> ArrayBitQueue<N> {
    /// At least one word, the active one among them, and bit indices that fit in `usize`.
    #[verifier::type_invariant]
    closed spec fn inv(&self) -> bool {
        &&& 0 < N
        &&& 64 * N <= usize::MAX
        &&& self.bit_block_index < N
    }

    /// Index of the active word.
    pub closed spec fn active_index(&self) -> int {
        self.bit_block_index as int
    }

    /// Queued bits of the active word.
    pub closed spec fn active_bits(&self) -> u64 {
        self.bit_blocks@[0]
    }

    /// Queue of the raised bits of `array`.
    pub fn new(array: [u64; N]) -> (r: Self)
        requires
            0 < N,
            64 * N <= usize::MAX,
        ensures
            forall|j: int| #[trigger] r.spec_queued(j) == array_bit(array@, j),
    {
        let r = ArrayBitQueue { bit_blocks: array, bit_block_index: 0 };
        proof {
            assert forall|j: int| #[trigger] r.spec_queued(j) == array_bit(array@, j) by {
                if 0 <= j < 64 * N {
                    lemma_array_pos(j, N as int);
                }
            }
        }
        r
    }

    /// Pops the lowest queued bit.
    pub fn next(&mut self) -> (r: Option<usize>)
        ensures
            match r {
                None => forall|j: int| !#[trigger] old(self).spec_queued(j) && !final(self).spec_queued(j),
                Some(i) => {
                    &&& old(self).spec_queued(i as int)
                    &&& forall|j: int| #[trigger] old(self).spec_queued(j) ==> i <= j
                    &&& forall|j: int| #[trigger] final(self).spec_queued(j) == (old(self).spec_queued(j) && j != i)
                },
            },
    {
        proof { use_type_invariant(&*self); }
        loop
            invariant
                0 < N,
                64 * N <= usize::MAX,
                self.bit_block_index < N,
                forall|j: int| #![trigger self.spec_queued(j)] #![trigger old(self).spec_queued(j)]
                    self.spec_queued(j) == old(self).spec_queued(j),
            decreases N - self.bit_block_index,
        {
            let mut it = one_bits_iter(self.bit_blocks[0]);
            let ghost e = self.bit_blocks@[0];
            let ghost before = *self;
            proof { lemma_lowest_bit(e); }
            if let Some(index) = it.next() {
                self.bit_blocks[0] = it.element;
                let i = self.bit_block_index * 64 + index;
                proof {
                    assert(before.spec_queued(i as int)) by {
                        assert(i as int / 64 == self.bit_block_index);
                        assert(i as int % 64 == index);
                    }
                    assert forall|j: int| #[trigger] before.spec_queued(j) implies i <= j by {
                        lemma_array_pos(j, N as int);
                        if j / 64 == self.bit_block_index {
                            assert(bit_at(e, (j % 64) as u64));
                        }
                    }
                    assert forall|j: int| #[trigger] self.spec_queued(j) == (before.spec_queued(j) && j != i) by {
                        if 0 <= j < 64 * N {
                            lemma_array_pos(j, N as int);
                            if j / 64 == self.bit_block_index {
                                assert(bit_at(self.bit_blocks@[0], (j % 64) as u64)
                                    == ((j % 64) != index && bit_at(e, (j % 64) as u64)));
                            } else if j / 64 > self.bit_block_index && j / 64 != 0 {
                                assert(self.bit_blocks@[j / 64] == before.bit_blocks@[j / 64]);
                            }
                        }
                    }
                }
                return Some(i);
            }
            proof { lemma_bit_zero(); }
            if self.bit_block_index == N - 1 {
                proof {
                    assert forall|j: int| !#[trigger] self.spec_queued(j) by {
                        if 0 <= j < 64 * N {
                            lemma_array_pos(j, N as int);
                        }
                    }
                }
                return None;
            }
            self.bit_block_index = self.bit_block_index + 1;
            self.bit_blocks[0] = self.bit_blocks[self.bit_block_index];
            proof {
                assert forall|j: int| #[trigger] self.spec_queued(j) == before.spec_queued(j) by {
                    if 0 <= j < 64 * N {
                        lemma_array_pos(j, N as int);
                    }
                }
            }
        }
    }
}

impl<const N: usize> BitQueue for ArrayBitQueue<N> {
    /// Bit `j` lies in word `j / 64`: the active word holds what is left of
    /// its bits; words after it are untouched; words before it are done.
    closed spec fn spec_queued(&self, j: int) -> bool {
        let k = j / 64;
        &&& 0 <= j < 64 * N
        &&& if k == self.bit_block_index {
            bit_of(self.bit_blocks@[0], j % 64)
        } else {
            k > self.bit_block_index && bit_of(self.bit_blocks@[k], j % 64)
        }
    }

    open spec fn spec_len() -> nat {
        (64 * N) as nat
    }

    fn empty() -> (r: Self) {
        let r = ArrayBitQueue { bit_blocks: [0u64; N], bit_block_index: N - 1 };
        proof {
            lemma_bit_zero();
            assert forall|j: int| !#[trigger] r.spec_queued(j) by {
                if 0 <= j < 64 * N {
                    lemma_array_pos(j, N as int);
                }
            }
        }
        r
    }

    fn filled() -> (r: Self) {
        let r = ArrayBitQueue { bit_blocks: [u64::MAX; N], bit_block_index: 0 };
        proof {
            lemma_fill_word(true);
            assert forall|j: int| #[trigger] r.spec_queued(j) == (0 <= j < 64 * N) by {
                if 0 <= j < 64 * N {
                    lemma_array_pos(j, N as int);
                    assert(bit_at(fill_word(true), (j % 64) as u64));
                }
            }
        }
        r
    }

    fn zero_first_n(&mut self, n: usize) {
        proof { use_type_invariant(&*self); }
        let ghost before = *self;
        let element_index = n / 64;
        if element_index >= N {
            self.bit_blocks[0] = 0;
            self.bit_block_index = N - 1;
            proof {
                lemma_bit_zero();
                assert forall|j: int| #[trigger] self.spec_queued(j) == (before.spec_queued(j) && j >= n) by {
                    if 0 <= j < 64 * N {
                        lemma_array_pos(j, N as int);
                    }
                }
            }
            return;
        }
        if element_index < self.bit_block_index {
            proof {
                assert forall|j: int| #[trigger] self.spec_queued(j) == (before.spec_queued(j) && j >= n) by {
                    if 0 <= j < 64 * N {
                        lemma_array_pos(j, N as int);
                    }
                }
            }
            return;
        }
        if element_index != self.bit_block_index {
            self.bit_block_index = element_index;
            self.bit_blocks[0] = self.bit_blocks[element_index];
        }
        let ghost mid = *self;
        let bit_index = n % 64;
        let active = self.bit_blocks[0];
        self.bit_blocks[0] = active & (u64::MAX << (bit_index as u64));
        proof {
            lemma_zero_first_n(active, bit_index as u64);
            assert forall|j: int| #[trigger] self.spec_queued(j) == (before.spec_queued(j) && j >= n) by {
                if 0 <= j < 64 * N {
                    lemma_array_pos(j, N as int);
                    if j / 64 == element_index {
                        assert(bit_at(self.bit_blocks@[0], (j % 64) as u64)
                            == ((j % 64) as u64 >= bit_index as u64 && bit_at(active, (j % 64) as u64)));
                    } else if j / 64 > element_index && j / 64 != 0 {
                        assert(self.bit_blocks@[j / 64] == before.bit_blocks@[j / 64]);
                    }
                }
            }
        }
    }

    fn current(&self) -> (r: usize)
        ensures
            r == 64 * self.active_index() + lowest_bit(self.active_bits()),
    {
        proof {
            use_type_invariant(self);
            lemma_lowest_bit(self.bit_blocks@[0]);
        }
        let r = self.bit_block_index * 64 + self.bit_blocks[0].trailing_zeros() as usize;
        proof {
            assert forall|j: int| 0 <= j < r implies !#[trigger] self.spec_queued(j) by {
                lemma_array_pos(j, N as int);
                if j / 64 == self.bit_block_index {
                    assert(!bit_at(self.bit_blocks@[0], (j % 64) as u64));
                }
            }
        }
        r
    }
}

} // verus!

//! Bit manipulation on `u64` words, with their bit-level meaning.
use vstd::prelude::*;

verus! {

/// Is bit `j` of `x` raised? (`j` counts from the least significant bit.)
pub open spec fn bit_at(x: u64, j: u64) -> bool {
    (x >> j) & 1u64 == 1u64
}

/// Bit `j` (as a mathematical integer) of `x`; false outside `0..64`.
pub open spec fn bit_of(x: u64, j: int) -> bool {
    0 <= j < 64 && bit_at(x, j as u64)
}

pub proof fn lemma_bit_set(x: u64, i: u64)
    requires
        i < 64,
    ensures
        forall|j: u64| j < 64 ==> #[trigger] bit_at(x | (1u64 << i), j) == (j == i || bit_at(x, j)),
{
    assert forall|j: u64| j < 64 implies #[trigger] bit_at(x | (1u64 << i), j) == (j == i || bit_at(x, j)) by {
        assert((((x | (1u64 << i)) >> j) & 1u64 == 1u64) == (j == i || (x >> j) & 1u64 == 1u64))
            by (bit_vector)
            requires
                i < 64, j < 64,
        ;
    }
}

pub proof fn lemma_bit_clear(x: u64, i: u64)
    requires
        i < 64,
    ensures
        forall|j: u64| j < 64 ==> #[trigger] bit_at(x & !(1u64 << i), j) == (j != i && bit_at(x, j)),
{
    assert forall|j: u64| j < 64 implies #[trigger] bit_at(x & !(1u64 << i), j) == (j != i && bit_at(x, j)) by {
        assert((((x & !(1u64 << i)) >> j) & 1u64 == 1u64) == (j != i && (x >> j) & 1u64 == 1u64))
            by (bit_vector)
            requires
                i < 64, j < 64,
        ;
    }
}

pub proof fn lemma_bit_zero()
    ensures
        forall|j: u64| #[trigger] bit_at(0u64, j) == false,
{
    assert forall|j: u64| #[trigger] bit_at(0u64, j) == false by {
        assert((0u64 >> j) & 1u64 == 0u64) by (bit_vector);
    }
}

/// A word has no raised bit at 64 or above.
pub proof fn lemma_bit_high(x: u64)
    ensures
        forall|j: u64| j >= 64 ==> !#[trigger] bit_at(x, j),
{
    assert forall|j: u64| j >= 64 implies !#[trigger] bit_at(x, j) by {
        assert((x >> j) & 1u64 == 0u64) by (bit_vector) requires j >= 64;
    }
}

/// The bits of `a | b`, `a & b`, `a ^ b` and `a & !b`.
pub proof fn lemma_bit_ops(a: u64, b: u64)
    ensures
        forall|j: u64| j < 64 ==> #[trigger] bit_at(a | b, j) == (bit_at(a, j) || bit_at(b, j)),
        forall|j: u64| j < 64 ==> #[trigger] bit_at(a & b, j) == (bit_at(a, j) && bit_at(b, j)),
        forall|j: u64| j < 64 ==> #[trigger] bit_at(a ^ b, j) == (bit_at(a, j) != bit_at(b, j)),
        forall|j: u64| j < 64 ==> #[trigger] bit_at(a & !b, j) == (bit_at(a, j) && !bit_at(b, j)),
{
    assert forall|j: u64| j < 64 implies #[trigger] bit_at(a | b, j) == (bit_at(a, j) || bit_at(b, j)) by {
        assert((((a | b) >> j) & 1u64 == 1u64) == (((a >> j) & 1u64 == 1u64) || ((b >> j) & 1u64 == 1u64))) by (bit_vector);
    }
    assert forall|j: u64| j < 64 implies #[trigger] bit_at(a & b, j) == (bit_at(a, j) && bit_at(b, j)) by {
        assert((((a & b) >> j) & 1u64 == 1u64) == (((a >> j) & 1u64 == 1u64) && ((b >> j) & 1u64 == 1u64))) by (bit_vector);
    }
    assert forall|j: u64| j < 64 implies #[trigger] bit_at(a ^ b, j) == (bit_at(a, j) != bit_at(b, j)) by {
        assert((((a ^ b) >> j) & 1u64 == 1u64) == (((a >> j) & 1u64 == 1u64) != ((b >> j) & 1u64 == 1u64))) by (bit_vector);
    }
    assert forall|j: u64| j < 64 implies #[trigger] bit_at(a & !b, j) == (bit_at(a, j) && !bit_at(b, j)) by {
        assert((((a & !b) >> j) & 1u64 == 1u64) == (((a >> j) & 1u64 == 1u64) && !((b >> j) & 1u64 == 1u64))) by (bit_vector);
    }
}

pub proof fn lemma_bit_nonzero(x: u64, j: u64)
    requires
        bit_at(x, j),
    ensures
        x != 0,
{
    assert((x >> j) & 1u64 == 1u64 ==> x != 0u64) by (bit_vector);
}

/// A non-zero word has a raised bit.
pub proof fn lemma_nonzero_has_bit(x: u64) -> (j: u64)
    requires
        x != 0,
    ensures
        j < 64,
        bit_at(x, j),
{
    vstd::std_specs::bits::axiom_u64_trailing_zeros(x);
    vstd::std_specs::bits::u64_trailing_zeros(x) as u64
}

/// Index of the lowest raised bit of `x` (64 for zero).
pub open spec fn lowest_bit(x: u64) -> int {
    vstd::std_specs::bits::u64_trailing_zeros(x) as int
}

/// The lowest raised bit is raised, and no lower bit is.
pub proof fn lemma_lowest_bit(x: u64)
    ensures
        0 <= lowest_bit(x) <= 64,
        (x == 0) == (lowest_bit(x) == 64),
        x != 0 ==> bit_at(x, lowest_bit(x) as u64),
        forall|j: u64| j < lowest_bit(x) ==> !#[trigger] bit_at(x, j),
{
    vstd::std_specs::bits::axiom_u64_trailing_zeros(x);
    let tz = vstd::std_specs::bits::u64_trailing_zeros(x) as u64;
    assert forall|j: u64| j < lowest_bit(x) implies !#[trigger] bit_at(x, j) by {
        assert((x >> j) & 1u64 == 0u64);
    }
}

/// `x & (x - 1)` clears the lowest raised bit of `x` and keeps the others.
pub proof fn lemma_clear_lowest(x: u64)
    requires
        x != 0,
    ensures
        forall|j: u64| j < 64 ==> #[trigger] bit_at(x & ((x - 1) as u64), j) == (j as int != lowest_bit(x) && bit_at(x, j)),
{
    lemma_lowest_bit(x);
    vstd::std_specs::bits::axiom_u64_trailing_zeros(x);
    let tz = vstd::std_specs::bits::u64_trailing_zeros(x) as u64;
    assert(x << ((64 - tz) as u64) == 0);
    assert forall|j: u64| j < 64 implies #[trigger] bit_at(x & ((x - 1) as u64), j) == (j != tz && bit_at(x, j)) by {
        assert((((x & ((x - 1) as u64)) >> j) & 1u64 == 1u64) == (j != tz && (x >> j) & 1u64 == 1u64)) by (bit_vector)
            requires
                x != 0,
                tz < 64,
                j < 64,
                (x >> tz) & 1u64 == 1u64,
                x << ((64 - tz) as u64) == 0,
        ;
    }
}

/// A word with no raised bit is zero.
pub proof fn lemma_no_bit_zero(x: u64)
    requires
        forall|j: u64| j < 64 ==> !#[trigger] bit_at(x, j),
    ensures
        x == 0,
{
    if x != 0 {
        let j = lemma_nonzero_has_bit(x);
    }
}

/// Index of `index`'s bit block at level 0, level 1 and the data level.
pub fn level_indices(index: usize) -> (r: (usize, usize, usize))
    ensures
        r.0 as int == index as int / 4096,
        r.1 as int == (index as int / 64) % 64,
        r.2 as int == index as int % 64,
{
    let level0 = index >> 12usize;
    let level0_remainder = index & 4095usize;
    let level1 = level0_remainder >> 6usize;
    let data = index & 63usize;
    assert(index >> 12usize == index / 4096) by (bit_vector);
    assert((index & 4095usize) >> 6usize == (index / 64) % 64) by (bit_vector);
    assert(index & 63usize == index % 64) by (bit_vector);
    (level0, level1, data)
}

/// Sets or clears bit `bit_index` of `block`; returns the previous bit.
pub fn set_bit_unchecked(block: &mut u64, bit_index: usize, flag: bool) -> (previous: bool)
    requires
        bit_index < 64,
    ensures
        previous == bit_at(*old(block), bit_index as u64),
        forall|j: u64| j < 64 ==> #[trigger] bit_at(*final(block), j) == (if j == bit_index as u64 { flag } else { bit_at(*old(block), j) }),
{
    let i = bit_index as u64;
    let block_mask: u64 = 1u64 << i;
    let masked_block = *block & block_mask;
    let b = *block;
    if flag {
        *block = b | block_mask;
        proof { lemma_bit_set(b, i); }
    } else {
        *block = b & !block_mask;
        proof { lemma_bit_clear(b, i); }
    }
    assert((b & (1u64 << i) != 0) == ((b >> i) & 1u64 == 1u64)) by (bit_vector) requires i < 64;
    masked_block != 0
}

/// Is bit `bit_index` of `block` raised?
pub fn get_bit_unchecked(block: u64, bit_index: usize) -> (r: bool)
    requires
        bit_index < 64,
    ensures
        r == bit_at(block, bit_index as u64),
{
    let i = bit_index as u64;
    let block_mask: u64 = 1u64 << i;
    let masked_block = block & block_mask;
    assert((block & (1u64 << i) != 0) == ((block >> i) & 1u64 == 1u64)) by (bit_vector) requires i < 64;
    masked_block != 0
}

/// `index = i0 * 4096 + i1 * 64 + i2` with each part below 64 (for `index < 2^18`).
pub proof fn lemma_index_parts(index: int)
    requires
        0 <= index < 262144,
    ensures
        0 <= index / 4096 < 64,
        0 <= (index / 64) % 64 < 64,
        0 <= index % 64 < 64,
        index == (index / 4096) * 4096 + ((index / 64) % 64) * 64 + index % 64,
{
    assert(index == (index / 4096) * 4096 + ((index / 64) % 64) * 64 + index % 64) by (nonlinear_arith)
        requires 0 <= index < 262144;
}

/// The parts of `i0 * 4096 + i1 * 64 + i2`.
pub proof fn lemma_index_compose(i0: int, i1: int, i2: int)
    requires
        0 <= i0 < 64,
        0 <= i1 < 64,
        0 <= i2 < 64,
    ensures
        0 <= i0 * 4096 + i1 * 64 + i2 < 262144,
        (i0 * 4096 + i1 * 64 + i2) / 4096 == i0,
        ((i0 * 4096 + i1 * 64 + i2) / 64) % 64 == i1,
        (i0 * 4096 + i1 * 64 + i2) % 64 == i2,
{
    assert(0 <= i0 * 4096 + i1 * 64 + i2 < 262144) by (nonlinear_arith)
        requires 0 <= i0 < 64, 0 <= i1 < 64, 0 <= i2 < 64;
    assert((i0 * 4096 + i1 * 64 + i2) / 4096 == i0) by (nonlinear_arith)
        requires 0 <= i0 < 64, 0 <= i1 < 64, 0 <= i2 < 64;
    assert((i0 * 4096 + i1 * 64 + i2) / 64 == i0 * 64 + i1) by (nonlinear_arith)
        requires 0 <= i0 < 64, 0 <= i1 < 64, 0 <= i2 < 64;
    assert((i0 * 64 + i1) % 64 == i1) by (nonlinear_arith)
        requires 0 <= i0 < 64, 0 <= i1 < 64;
    assert((i0 * 4096 + i1 * 64 + i2) % 64 == i2) by (nonlinear_arith)
        requires 0 <= i0 < 64, 0 <= i1 < 64, 0 <= i2 < 64;
}

/// Number of raised bits among bits `0..n` of `x`.
pub open spec fn bit_count(x: u64, n: int) -> nat
    decreases n,
{
    if n <= 0 {
        0
    } else {
        bit_count(x, n - 1) + if bit_at(x, (n - 1) as u64) { 1nat } else { 0nat }
    }
}

/// At most `n` bits are raised among `n`.
pub proof fn lemma_bit_count_bound(x: u64, n: int)
    ensures
        bit_count(x, n) <= if n < 0 { 0 } else { n },
    decreases n,
{
    if n > 0 {
        lemma_bit_count_bound(x, n - 1);
    }
}

/// Raised bits among `0..a` are no more than among `0..b`, and fewer when
/// bit `a` is raised.
pub proof fn lemma_bit_count_mono(x: u64, a: int, b: int)
    requires
        0 <= a <= b <= 64,
    ensures
        bit_count(x, a) <= bit_count(x, b),
        a < b && bit_of(x, a) ==> bit_count(x, a) < bit_count(x, b),
    decreases b - a,
{
    if a < b {
        lemma_bit_count_mono(x, a, b - 1);
        if a == b - 1 {
            assert(bit_count(x, b) == bit_count(x, a) + if bit_at(x, a as u64) { 1nat } else { 0nat });
        }
    }
}

/// Number of raised bits of `x`.
pub fn count_ones(x: u64) -> (r: usize)
    ensures
        r == bit_count(x, 64),
{
    let mut count: usize = 0;
    let mut i: u64 = 0;
    while i < 64
        invariant
            i <= 64,
            count == bit_count(x, i as int),
            count <= i,
        decreases 64 - i,
    {
        if (x >> i) & 1 == 1 {
            count += 1;
        }
        i += 1;
    }
    count
}

/// Number of raised bits of `x` among bits `0..n`.
pub fn count_ones_below(x: u64, n: usize) -> (r: usize)
    requires
        n <= 64,
    ensures
        r == bit_count(x, n as int),
{
    let mut count: usize = 0;
    let mut i: usize = 0;
    while i < n
        invariant
            i <= n <= 64,
            count == bit_count(x, i as int),
            count <= i,
        decreases n - i,
    {
        if (x >> (i as u64)) & 1 == 1 {
            count += 1;
        }
        i += 1;
    }
    count
}

/// `p << n`, or 0 when `n` is 64 or more.
pub fn saturating_shl(p: u64, n: usize) -> (r: u64)
    ensures
        n >= 64 ==> r == 0,
        n < 64 ==> r == p << (n as u64),
{
    if n >= 64 {
        0
    } else {
        p << (n as u64)
    }
}

/// Bits of `x` from `n` on, with the lower ones cleared.
pub proof fn lemma_zero_first_n(x: u64, n: u64)
    requires
        n < 64,
    ensures
        forall|j: u64| j < 64 ==> #[trigger] bit_at(x & (u64::MAX << n), j) == (j >= n && bit_at(x, j)),
{
    assert forall|j: u64| j < 64 implies #[trigger] bit_at(x & (u64::MAX << n), j) == (j >= n && bit_at(x, j)) by {
        assert((((x & (0xffff_ffff_ffff_ffffu64 << n)) >> j) & 1u64 == 1u64) == (j >= n && (x >> j) & 1u64 == 1u64))
            by (bit_vector)
            requires
                n < 64,
                j < 64,
        ;
    }
}

/// Iterator over the raised bits of a word, lowest first.
///
/// "Consumed"/iterated one bits are replaced with zero.
#[derive(Clone, Copy)]
pub struct OneBitsIter {
    pub element: u64,
}

/// Iterator over the raised bits of `element`.
pub fn one_bits_iter(element: u64) -> (r: OneBitsIter)
    ensures
        r.element == element,
{
    OneBitsIter { element }
}

impl OneBitsIter {
    /// Pops the lowest raised bit.
    pub fn next(&mut self) -> (r: Option<usize>)
        ensures
            old(self).element == 0 ==> r.is_none() && final(self).element == 0,
            old(self).element != 0 ==> r == Some(lowest_bit(old(self).element) as usize),
            old(self).element != 0 ==> forall|j: u64| j < 64 ==> #[trigger] bit_at(final(self).element, j)
                == (j as int != lowest_bit(old(self).element) && bit_at(old(self).element, j)),
            final(self).element <= old(self).element,
            old(self).element != 0 ==> final(self).element < old(self).element,
    {
        if self.element != 0 {
            let x = self.element;
            let index = x.trailing_zeros() as usize;
            proof {
                lemma_lowest_bit(x);
                lemma_clear_lowest(x);
                assert(x & ((x - 1) as u64) < x) by (bit_vector) requires x != 0;
            }
            self.element = x & (x - 1);
            Some(index)
        } else {
            None
        }
    }
}

/// `bits` holds exactly the raised bits of `mask` from its own lowest raised bit on.
pub open spec fn is_suffix(bits: u64, mask: u64) -> bool {
    forall|j: u64| j < 64 ==> #[trigger] bit_at(bits, j) == (bit_at(mask, j) && j >= lowest_bit(bits))
}

/// The raised bits of `mask` from `n` on form a suffix of `mask`.
pub proof fn lemma_suffix_from(bits: u64, mask: u64, n: int)
    requires
        forall|j: u64| j < 64 ==> #[trigger] bit_at(bits, j) == (bit_at(mask, j) && j >= n),
    ensures
        is_suffix(bits, mask),
        bits != 0 ==> lowest_bit(bits) >= n,
{
    lemma_lowest_bit(bits);
    if bits != 0 {
        assert(bit_at(bits, lowest_bit(bits) as u64));
    }
    assert forall|j: u64| j < 64 implies #[trigger] bit_at(bits, j) == (bit_at(mask, j) && j >= lowest_bit(bits)) by {
        if bit_at(mask, j) && j >= lowest_bit(bits) && bits != 0 {
            assert(bit_at(bits, lowest_bit(bits) as u64));
        }
    }
}

/// Popping the lowest raised bit of a suffix of `mask` leaves a suffix of `mask`.
pub proof fn lemma_suffix_pop(old_bits: u64, new_bits: u64, mask: u64)
    requires
        is_suffix(old_bits, mask),
        old_bits != 0,
        forall|j: u64| j < 64 ==> #[trigger] bit_at(new_bits, j) == (j as int != lowest_bit(old_bits) && bit_at(old_bits, j)),
    ensures
        is_suffix(new_bits, mask),
        forall|j: u64| j < 64 ==> #[trigger] bit_at(new_bits, j) == (bit_at(mask, j) && j > lowest_bit(old_bits)),
{
    lemma_lowest_bit(old_bits);
    assert forall|j: u64| j < 64 implies #[trigger] bit_at(new_bits, j) == (bit_at(mask, j) && j > lowest_bit(old_bits)) by {
        assert(bit_at(old_bits, j) == (bit_at(mask, j) && j >= lowest_bit(old_bits)));
    }
    lemma_suffix_from(new_bits, mask, lowest_bit(old_bits) + 1);
}

/// Calls `f` with the index of each raised bit of `element`, lowest first,
/// until it breaks.
///
/// `Continue` comes back when `f` continued on every raised bit.
///
/// `f` is called only on raised bits, each time after every lower raised bit
/// continued: its precondition is asked of no other argument.
pub fn traverse_one_bits<B, F: FnMut(usize) -> core::ops::ControlFlow<B>>(element: u64, f: F) -> (r: core::ops::ControlFlow<B>)
    requires
        forall|i: usize| #![trigger call_requires(f, (i,))] bit_of(element, i as int)
            && (forall|j: usize| j < i && bit_of(element, j as int) ==>
                #[trigger] call_ensures(f, (j,), core::ops::ControlFlow::Continue(())))
            ==> call_requires(f, (i,)),
    ensures
        r is Continue ==> forall|i: usize| bit_of(element, i as int) ==> #[trigger] call_ensures(f, (i,), core::ops::ControlFlow::Continue(())),
        r matches core::ops::ControlFlow::Break(b) ==> exists|i: usize| bit_of(element, i as int)
            && #[trigger] call_ensures(f, (i,), core::ops::ControlFlow::Break(b))
            && forall|j: usize| j < i && bit_of(element, j as int) ==>
                #[trigger] call_ensures(f, (j,), core::ops::ControlFlow::Continue(())),
{
    let mut g = f;
    let mut it = one_bits_iter(element);
    loop
        invariant
            g == f,
            forall|i: usize| #![trigger call_requires(f, (i,))] bit_of(element, i as int)
                && (forall|j: usize| j < i && bit_of(element, j as int) ==>
                    #[trigger] call_ensures(f, (j,), core::ops::ControlFlow::Continue(())))
                ==> call_requires(f, (i,)),
            forall|j: u64| j < 64 && #[trigger] bit_at(it.element, j) ==> bit_at(element, j),
            forall|i: usize| bit_of(element, i as int) && !bit_of(it.element, i as int) ==>
                #[trigger] call_ensures(f, (i,), core::ops::ControlFlow::Continue(())),
        decreases it.element,
    {
        let ghost before = it.element;
        proof { lemma_lowest_bit(before); }
        match it.next() {
            None => {
                proof { lemma_bit_zero(); }
                return core::ops::ControlFlow::Continue(());
            },
            Some(index) => {
                proof {
                    assert(bit_of(element, index as int));
                    assert forall|j: usize| j < index && bit_of(element, j as int) implies
                        #[trigger] call_ensures(f, (j,), core::ops::ControlFlow::Continue(())) by {
                        assert(!bit_at(before, j as u64));
                        assert(!bit_of(before, j as int));
                    }
                }
                let res = g(index);
                match res {
                    core::ops::ControlFlow::Break(b) => {
                        proof {
                            assert(bit_of(element, index as int));
                            assert(call_ensures(f, (index,), core::ops::ControlFlow::Break(b)));
                            assert forall|j: usize| j < index && bit_of(element, j as int) implies
                                #[trigger] call_ensures(f, (j,), core::ops::ControlFlow::Continue(())) by {
                                assert(!bit_at(before, j as u64));
                                assert(!bit_of(before, j as int));
                            }
                        }
                        return core::ops::ControlFlow::Break(b);
                    },
                    core::ops::ControlFlow::Continue(c) => {
                        proof {
                            assert(c == ());
                            assert forall|i: usize| bit_of(element, i as int) && !bit_of(it.element, i as int) implies
                                #[trigger] call_ensures(f, (i,), core::ops::ControlFlow::Continue(())) by {
                                if i != index {
                                    assert(bit_at(it.element, i as u64) == bit_at(before, i as u64));
                                }
                            }
                        }
                    },
                }
            },
        }
    }
}


/// Bit `i` of the words `s`: word `i / 64` holds bits `64 * (i / 64)` to
/// `64 * (i / 64) + 63`, lowest first.
pub open spec fn array_bit(s: Seq<u64>, i: int) -> bool {
    0 <= i < 64 * s.len() && bit_of(s[i / 64], i % 64)
}

/// The bits of `u64::MAX << b`, and of `(u64::MAX - 1) << b`.
pub proof fn lemma_shl_masks(b: u64)
    requires
        b < 64,
    ensures
        forall|j: u64| j < 64 ==> #[trigger] bit_at(u64::MAX << b, j) == (j >= b),
        forall|j: u64| j < 64 ==> #[trigger] bit_at(0xffff_ffff_ffff_fffeu64 << b, j) == (j > b),
        forall|j: u64| j < 64 ==> #[trigger] bit_at(!(u64::MAX << b), j) == (j < b),
        forall|j: u64| j < 64 ==> #[trigger] bit_at(!(0xffff_ffff_ffff_fffeu64 << b), j) == (j <= b),
{
    assert forall|j: u64| j < 64 implies #[trigger] bit_at(u64::MAX << b, j) == (j >= b) by {
        assert((((0xffff_ffff_ffff_ffffu64 << b) >> j) & 1u64 == 1u64) == (j >= b)) by (bit_vector)
            requires b < 64, j < 64;
    }
    assert forall|j: u64| j < 64 implies #[trigger] bit_at(0xffff_ffff_ffff_fffeu64 << b, j) == (j > b) by {
        assert((((0xffff_ffff_ffff_fffeu64 << b) >> j) & 1u64 == 1u64) == (j > b)) by (bit_vector)
            requires b < 64, j < 64;
    }
    assert forall|j: u64| j < 64 implies #[trigger] bit_at(!(u64::MAX << b), j) == (j < b) by {
        assert(((!(0xffff_ffff_ffff_ffffu64 << b) >> j) & 1u64 == 1u64) == (j < b)) by (bit_vector)
            requires b < 64, j < 64;
    }
    assert forall|j: u64| j < 64 implies #[trigger] bit_at(!(0xffff_ffff_ffff_fffeu64 << b), j) == (j <= b) by {
        assert(((!(0xffff_ffff_ffff_fffeu64 << b) >> j) & 1u64 == 1u64) == (j <= b)) by (bit_vector)
            requires b < 64, j < 64;
    }
}

/// Splitting a bit position into its word and its bit in the word.
pub proof fn lemma_array_pos(i: int, len: int)
    requires
        0 <= i < 64 * len,
    ensures
        0 <= i / 64 < len,
        0 <= i % 64 < 64,
        i == 64 * (i / 64) + i % 64,
{
}

/// Replacing word `k` changes only the bits of that word.
pub proof fn lemma_array_update(s: Seq<u64>, k: int, w: u64, i: int)
    requires
        0 <= k < s.len(),
    ensures
        array_bit(s.update(k, w), i) == if 0 <= i < 64 * s.len() && i / 64 == k {
            bit_of(w, i % 64)
        } else {
            array_bit(s, i)
        },
{
}

/// Block ordering undefined. But same as [get_array_bit_unchecked].
///
/// Sets bit `index` of `blocks` to `FLAG`; returns the bit before and the
/// word that holds it, edited.
pub fn set_array_bit_unchecked<const FLAG: bool>(blocks: &mut [u64], index: usize) -> (r: (bool, u64))
    requires
        index < 64 * old(blocks)@.len(),
    ensures
        final(blocks)@ == old(blocks)@.update(index as int / 64, r.1),
        r.0 == array_bit(old(blocks)@, index as int),
        forall|i: int| #[trigger] array_bit(final(blocks)@, i) == if i == index {
            FLAG
        } else {
            array_bit(old(blocks)@, i)
        },
{
    let block_index = index / 64;
    let bit_index = index & 63;
    assert(index & 63 == index % 64) by (bit_vector);
    proof { lemma_array_pos(index as int, old(blocks)@.len() as int); }
    let mut block = blocks[block_index];
    let previous = set_bit_unchecked(&mut block, bit_index, FLAG);
    blocks[block_index] = block;
    proof {
        assert forall|i: int| #[trigger] array_bit(blocks@, i) == if i == index {
            FLAG
        } else {
            array_bit(old(blocks)@, i)
        } by {
            lemma_array_update(old(blocks)@, block_index as int, block, i);
            if 0 <= i < 64 * old(blocks)@.len() {
                lemma_array_pos(i, old(blocks)@.len() as int);
                if i / 64 == block_index {
                    assert(bit_at(block, (i % 64) as u64) == if (i % 64) as u64 == bit_index as u64 {
                        FLAG
                    } else {
                        bit_at(old(blocks)@[block_index as int], (i % 64) as u64)
                    });
                }
            }
        }
    }
    (previous, block)
}

/// Block ordering undefined. But same as [set_array_bit_unchecked].
pub fn get_array_bit_unchecked(blocks: &[u64], index: usize) -> (r: bool)
    requires
        index < 64 * blocks@.len(),
    ensures
        r == array_bit(blocks@, index as int),
{
    let block_index = index / 64;
    let bit_index = index & 63;
    assert(index & 63 == index % 64) by (bit_vector);
    proof { lemma_array_pos(index as int, blocks@.len() as int); }
    get_bit_unchecked(blocks[block_index], bit_index)
}


/// Word with all bits `flag`.
pub open spec fn fill_word(flag: bool) -> u64 {
    if flag { u64::MAX } else { 0u64 }
}

/// The bits of the all-ones and all-zeros words.
pub proof fn lemma_fill_word(flag: bool)
    ensures
        forall|j: u64| j < 64 ==> #[trigger] bit_at(fill_word(flag), j) == flag,
{
    lemma_bit_zero();
    assert forall|j: u64| j < 64 implies #[trigger] bit_at(u64::MAX, j) by {
        assert((0xffff_ffff_ffff_ffffu64 >> j) & 1u64 == 1u64) by (bit_vector) requires j < 64;
    }
}

/// Sets the words `from..to` of `blocks` to all `FLAG` bits.
fn fill_words<const FLAG: bool>(blocks: &mut [u64], from: usize, to: usize)
    requires
        from <= to <= old(blocks)@.len(),
    ensures
        final(blocks)@.len() == old(blocks)@.len(),
        forall|w: int| 0 <= w < old(blocks)@.len() ==> #[trigger] final(blocks)@[w] == if from <= w < to {
            fill_word(FLAG)
        } else {
            old(blocks)@[w]
        },
{
    let word: u64 = if FLAG { u64::MAX } else { 0 };
    let mut k = from;
    while k < to
        invariant
            from <= k <= to,
            to <= old(blocks)@.len(),
            blocks@.len() == old(blocks)@.len(),
            word == fill_word(FLAG),
            forall|w: int| 0 <= w < old(blocks)@.len() ==> #[trigger] blocks@[w] == if from <= w < k {
                fill_word(FLAG)
            } else {
                old(blocks)@[w]
            },
        decreases to - k,
    {
        blocks[k] = word;
        k += 1;
    }
}

/// Sets the bits `..=end` of `blocks` to `FLAG`.
///
/// `end + 1` must be in `blocks` bit-range.
pub fn fill_array_bits_to_unchecked<const FLAG: bool>(blocks: &mut [u64], end: usize)
    requires
        end < usize::MAX,
        end + 1 < 64 * old(blocks)@.len(),
    ensures
        final(blocks)@.len() == old(blocks)@.len(),
        forall|i: int| 0 <= i < 64 * old(blocks)@.len() ==> #[trigger] array_bit(final(blocks)@, i) == if i <= end {
            FLAG
        } else {
            array_bit(old(blocks)@, i)
        },
{
    let last = end + 1;
    let element_index = last / 64;
    let bit_index = last % 64;
    proof { lemma_array_pos(last as int, old(blocks)@.len() as int); }
    let mask = u64::MAX << (bit_index as u64);
    fill_words::<FLAG>(blocks, 0, element_index);
    let ghost filled = blocks@;
    let block = blocks[element_index];
    let edited = if FLAG { block | !mask } else { block & mask };
    blocks[element_index] = edited;
    proof {
        lemma_shl_masks(bit_index as u64);
        lemma_bit_ops(block, mask);
        lemma_bit_ops(block, !mask);
        lemma_fill_word(FLAG);
        assert forall|i: int| 0 <= i < 64 * old(blocks)@.len() implies #[trigger] array_bit(blocks@, i) == if i <= end {
            FLAG
        } else {
            array_bit(old(blocks)@, i)
        } by {
            lemma_array_pos(i, old(blocks)@.len() as int);
            lemma_array_update(filled, element_index as int, edited, i);
            let j = (i % 64) as u64;
            if i / 64 == element_index {
                assert(bit_at(edited, j) == if FLAG { bit_at(block, j) || j < bit_index } else {
                    bit_at(block, j) && j >= bit_index });
            }
        }
    }
}

/// Sets the bits `start..` of `blocks` to `FLAG`.
///
/// `start` must be in `blocks` bit-range.
pub fn fill_array_bits_from_unchecked<const FLAG: bool>(blocks: &mut [u64], start: usize)
    requires
        start < 64 * old(blocks)@.len(),
    ensures
        final(blocks)@.len() == old(blocks)@.len(),
        forall|i: int| 0 <= i < 64 * old(blocks)@.len() ==> #[trigger] array_bit(final(blocks)@, i) == if i >= start {
            FLAG
        } else {
            array_bit(old(blocks)@, i)
        },
{
    let element_index = start / 64;
    let bit_index = start % 64;
    proof { lemma_array_pos(start as int, old(blocks)@.len() as int); }
    let len = blocks.len();
    fill_words::<FLAG>(blocks, element_index + 1, len);
    let ghost filled = blocks@;
    let mask = !(u64::MAX << (bit_index as u64));
    let block = blocks[element_index];
    let edited = if FLAG { block | !mask } else { block & mask };
    blocks[element_index] = edited;
    proof {
        lemma_shl_masks(bit_index as u64);
        lemma_bit_ops(block, mask);
        lemma_bit_ops(block, !mask);
        lemma_fill_word(FLAG);
        assert(!mask == u64::MAX << (bit_index as u64)) by (bit_vector)
            requires mask == !(0xffff_ffff_ffff_ffffu64 << (bit_index as u64));
        assert forall|i: int| 0 <= i < 64 * old(blocks)@.len() implies #[trigger] array_bit(blocks@, i) == if i >= start {
            FLAG
        } else {
            array_bit(old(blocks)@, i)
        } by {
            lemma_array_pos(i, old(blocks)@.len() as int);
            lemma_array_update(filled, element_index as int, edited, i);
            let j = (i % 64) as u64;
            if i / 64 == element_index {
                assert(bit_at(edited, j) == if FLAG { bit_at(block, j) || j >= bit_index } else {
                    bit_at(block, j) && j < bit_index });
            }
        }
    }
}

/// Sets the bits `first..=last` of `blocks` to `FLAG`.
///
/// The range must be in `blocks` bit-range.
pub fn fill_array_bits_unchecked<const FLAG: bool>(blocks: &mut [u64], first: usize, last: usize)
    requires
        first <= last < 64 * old(blocks)@.len(),
    ensures
        final(blocks)@.len() == old(blocks)@.len(),
        forall|i: int| 0 <= i < 64 * old(blocks)@.len() ==> #[trigger] array_bit(final(blocks)@, i) == if first <= i <= last {
            FLAG
        } else {
            array_bit(old(blocks)@, i)
        },
{
    let first_element_index = first / 64;
    let first_bit_index = first % 64;
    let last_element_index = last / 64;
    let last_bit_index = last % 64;
    proof {
        lemma_array_pos(first as int, old(blocks)@.len() as int);
        lemma_array_pos(last as int, old(blocks)@.len() as int);
        lemma_shl_masks(first_bit_index as u64);
        lemma_shl_masks(last_bit_index as u64);
        lemma_fill_word(FLAG);
    }
    let left_mask = u64::MAX << (first_bit_index as u64);
    let right_mask = !(0xffff_ffff_ffff_fffeu64 << (last_bit_index as u64));
    if first_element_index == last_element_index {
        let mask = left_mask & right_mask;
        let block = blocks[first_element_index];
        let edited = if FLAG { block | mask } else { block & !mask };
        blocks[first_element_index] = edited;
        proof {
            lemma_bit_ops(left_mask, right_mask);
            lemma_bit_ops(block, mask);
            assert forall|i: int| 0 <= i < 64 * old(blocks)@.len() implies #[trigger] array_bit(blocks@, i) == if first <= i <= last {
                FLAG
            } else {
                array_bit(old(blocks)@, i)
            } by {
                lemma_array_pos(i, old(blocks)@.len() as int);
                lemma_array_update(old(blocks)@, first_element_index as int, edited, i);
                let j = (i % 64) as u64;
                if i / 64 == first_element_index {
                    assert(bit_at(mask, j) == (first_bit_index <= j <= last_bit_index));
                }
            }
        }
    } else {
        fill_words::<FLAG>(blocks, first_element_index + 1, last_element_index);
        let ghost filled = blocks@;
        let first_block = blocks[first_element_index];
        let first_edited = if FLAG { first_block | left_mask } else { first_block & !left_mask };
        blocks[first_element_index] = first_edited;
        let ghost mid = blocks@;
        let last_block = blocks[last_element_index];
        let last_edited = if FLAG { last_block | right_mask } else { last_block & !right_mask };
        blocks[last_element_index] = last_edited;
        proof {
            lemma_bit_ops(first_block, left_mask);
            lemma_bit_ops(last_block, right_mask);
            assert forall|i: int| 0 <= i < 64 * old(blocks)@.len() implies #[trigger] array_bit(blocks@, i) == if first <= i <= last {
                FLAG
            } else {
                array_bit(old(blocks)@, i)
            } by {
                lemma_array_pos(i, old(blocks)@.len() as int);
                lemma_array_update(filled, first_element_index as int, first_edited, i);
                lemma_array_update(mid, last_element_index as int, last_edited, i);
                let j = (i % 64) as u64;
                if i / 64 == first_element_index {
                    assert(bit_at(first_edited, j) == if FLAG { bit_at(first_block, j) || j >= first_bit_index } else {
                        bit_at(first_block, j) && !(j >= first_bit_index) });
                }
                if i / 64 == last_element_index {
                    assert(bit_at(last_edited, j) == if FLAG { bit_at(last_block, j) || j <= last_bit_index } else {
                        bit_at(last_block, j) && !(j <= last_bit_index) });
                }
            }
        }
    }
}


/// The bits of words `k..m` of `s`, counted from word `k`.
pub proof fn lemma_array_subrange(s: Seq<u64>, k: int, m: int, i: int)
    requires
        0 <= k <= m <= s.len(),
        0 <= i < 64 * (m - k),
    ensures
        array_bit(s.subrange(k, m), i) == array_bit(s, 64 * k + i),
{
    lemma_array_pos(i, m - k);
    assert((64 * k + i) / 64 == k + i / 64);
    assert((64 * k + i) % 64 == i % 64);
}

/// Element at split point mutated.
///
/// Direction: 0 - left; 1 - right. Left: clears the bits from `at` on in
/// the word of `at`, and returns the words up to it, which start at bit 0.
/// Right: clears the bits below `at` in the word of `at`, and returns the
/// words from it on, with the bit index of its first bit.
pub fn split_array_bits_unchecked<const DIRECTION: usize>(blocks: &mut [u64], at: usize) -> (r: (usize, &mut [u64]))
    requires
        DIRECTION < 2,
        at < 64 * old(blocks)@.len(),
    ensures
        DIRECTION == 0 ==> {
            &&& r.0 == 0
            &&& r.1@.len() == at / 64 + 1
            &&& forall|i: int| 0 <= i < 64 * r.1@.len() ==> #[trigger] array_bit(r.1@, i) == (i < at
                && array_bit(old(blocks)@, i))
            &&& final(blocks)@ == final(r.1)@ + old(blocks)@.subrange(at / 64 + 1, old(blocks)@.len() as int)
        },
        DIRECTION == 1 ==> {
            &&& r.0 == 64 * (at / 64)
            &&& r.1@.len() == old(blocks)@.len() - at / 64
            &&& forall|i: int| 0 <= i < 64 * r.1@.len() ==> #[trigger] array_bit(r.1@, i) == (r.0 + i >= at
                && array_bit(old(blocks)@, r.0 + i))
            &&& final(blocks)@ == old(blocks)@.subrange(0, at as int / 64) + final(r.1)@
        },
{
    let element_index = at / 64;
    let bit_index = at % 64;
    proof {
        lemma_array_pos(at as int, old(blocks)@.len() as int);
        lemma_shl_masks(bit_index as u64);
    }
    let block = blocks[element_index];
    if DIRECTION == 0 {
        let edited = block & !(u64::MAX << (bit_index as u64));
        blocks[element_index] = edited;
        let ghost b1 = blocks@;
        let (left, rest) = blocks.split_at_mut(element_index + 1);
        proof {
            lemma_bit_ops(block, u64::MAX << (bit_index as u64));
            assert forall|i: int| 0 <= i < 64 * left@.len() implies #[trigger] array_bit(left@, i) == (i < at
                && array_bit(old(blocks)@, i)) by {
                lemma_array_subrange(b1, 0, element_index + 1, i);
                lemma_array_pos(i, old(blocks)@.len() as int);
                lemma_array_update(old(blocks)@, element_index as int, edited, i);
            }
            assert(rest@ == old(blocks)@.subrange(element_index + 1, old(blocks)@.len() as int));
        }
        (0, left)
    } else {
        let edited = block & (u64::MAX << (bit_index as u64));
        blocks[element_index] = edited;
        let ghost b1 = blocks@;
        let (rest, right) = blocks.split_at_mut(element_index);
        proof {
            lemma_bit_ops(block, u64::MAX << (bit_index as u64));
            assert forall|i: int| 0 <= i < 64 * right@.len() implies #[trigger] array_bit(right@, i) == (64 * element_index
                + i >= at && array_bit(old(blocks)@, 64 * element_index + i)) by {
                lemma_array_subrange(b1, element_index as int, b1.len() as int, i);
                lemma_array_pos(64 * element_index + i, old(blocks)@.len() as int);
                lemma_array_update(old(blocks)@, element_index as int, edited, 64 * element_index + i);
            }
            assert(rest@ == old(blocks)@.subrange(0, element_index as int));
        }
        (element_index * 64, right)
    }
}

/// `blocks` will be mutated: the bits outside `first..=last` are cleared in
/// the words of `first` and `last`. Returns the words from the one of
/// `first` to the one of `last`, with the bit index of their first bit.
pub fn slice_array_bits_unchecked(blocks: &mut [u64], first: usize, last: usize) -> (r: (usize, &mut [u64]))
    requires
        first <= last < 64 * old(blocks)@.len(),
    ensures
        r.0 == 64 * (first / 64),
        r.1@.len() == last / 64 - first / 64 + 1,
        forall|i: int| 0 <= i < 64 * r.1@.len() ==> #[trigger] array_bit(r.1@, i) == (first <= r.0 + i <= last
            && array_bit(old(blocks)@, r.0 + i)),
        final(blocks)@ == old(blocks)@.subrange(0, first as int / 64) + final(r.1)@ + old(blocks)@.subrange(
            last / 64 + 1,
            old(blocks)@.len() as int,
        ),
{
    let first_element_index = first / 64;
    let last_element_index = last / 64;
    let first_bit_index = first % 64;
    let last_bit_index = last % 64;
    proof {
        lemma_array_pos(first as int, old(blocks)@.len() as int);
        lemma_array_pos(last as int, old(blocks)@.len() as int);
        lemma_shl_masks(first_bit_index as u64);
        lemma_shl_masks(last_bit_index as u64);
    }
    let first_block = blocks[first_element_index];
    let first_edited = first_block & (u64::MAX << (first_bit_index as u64));
    blocks[first_element_index] = first_edited;
    let ghost b1 = blocks@;
    let last_block = blocks[last_element_index];
    let last_edited = last_block & !(0xffff_ffff_ffff_fffeu64 << (last_bit_index as u64));
    blocks[last_element_index] = last_edited;
    let ghost b2 = blocks@;
    let (head, tail) = blocks.split_at_mut(first_element_index);
    let (part, rest) = tail.split_at_mut(last_element_index - first_element_index + 1);
    proof {
        lemma_bit_ops(first_block, u64::MAX << (first_bit_index as u64));
        lemma_bit_ops(last_block, !(0xffff_ffff_ffff_fffeu64 << (last_bit_index as u64)));
        assert(part@ == b2.subrange(first_element_index as int, last_element_index + 1));
        assert forall|i: int| 0 <= i < 64 * part@.len() implies #[trigger] array_bit(part@, i) == (first <= 64
            * first_element_index + i <= last && array_bit(old(blocks)@, 64 * first_element_index + i)) by {
            let x = 64 * first_element_index + i;
            lemma_array_subrange(b2, first_element_index as int, last_element_index + 1, i);
            lemma_array_pos(x, old(blocks)@.len() as int);
            lemma_array_update(old(blocks)@, first_element_index as int, first_edited, x);
            lemma_array_update(b1, last_element_index as int, last_edited, x);
        }
        assert(head@ == old(blocks)@.subrange(0, first_element_index as int));
        assert(rest@ == old(blocks)@.subrange(last_element_index + 1, old(blocks)@.len() as int));
    }
    (first_element_index * 64, part)
}


/// Calls `f` with the index of each raised bit of `array`, lowest first,
/// until it breaks. Blocks traversed in the same order as
/// [set_array_bit_unchecked], [get_array_bit_unchecked].
pub fn traverse_array_one_bits<B, F: FnMut(usize) -> core::ops::ControlFlow<B>>(array: &[u64], f: F) -> (r: core::ops::ControlFlow<B>)
    requires
        64 * array@.len() <= usize::MAX,
        forall|i: usize| #![trigger call_requires(f, (i,))] array_bit(array@, i as int)
            && (forall|j: usize| j < i && array_bit(array@, j as int) ==>
                #[trigger] call_ensures(f, (j,), core::ops::ControlFlow::Continue(())))
            ==> call_requires(f, (i,)),
    ensures
        r is Continue ==> forall|i: usize| array_bit(array@, i as int) ==> #[trigger] call_ensures(f, (i,),
            core::ops::ControlFlow::Continue(())),
        r matches core::ops::ControlFlow::Break(b) ==> exists|i: usize| array_bit(array@, i as int)
            && #[trigger] call_ensures(f, (i,), core::ops::ControlFlow::Break(b))
            && forall|j: usize| j < i && array_bit(array@, j as int) ==>
                #[trigger] call_ensures(f, (j,), core::ops::ControlFlow::Continue(())),
{
    let mut g = f;
    let len = array.len();
    let mut k: usize = 0;
    while k < len
        invariant
            k <= len,
            len == array@.len(),
            64 * len <= usize::MAX,
            g == f,
            forall|i: usize| #![trigger call_requires(f, (i,))] array_bit(array@, i as int)
                && (forall|j: usize| j < i && array_bit(array@, j as int) ==>
                    #[trigger] call_ensures(f, (j,), core::ops::ControlFlow::Continue(())))
                ==> call_requires(f, (i,)),
            forall|i: usize| i < 64 * k && array_bit(array@, i as int) ==> #[trigger] call_ensures(f, (i,),
                core::ops::ControlFlow::Continue(())),
        decreases len - k,
    {
        let start = k * 64;
        let word = array[k];
        let mut it = one_bits_iter(word);
        while it.element != 0
            invariant
                k < len,
                len == array@.len(),
                64 * len <= usize::MAX,
                start == 64 * k,
                word == array@[k as int],
                g == f,
                forall|i: usize| #![trigger call_requires(f, (i,))] array_bit(array@, i as int)
                    && (forall|j: usize| j < i && array_bit(array@, j as int) ==>
                        #[trigger] call_ensures(f, (j,), core::ops::ControlFlow::Continue(())))
                    ==> call_requires(f, (i,)),
                forall|j: u64| j < 64 && #[trigger] bit_at(it.element, j) ==> bit_at(word, j),
                forall|i: usize| i < 64 * k && array_bit(array@, i as int) ==> #[trigger] call_ensures(f, (i,),
                    core::ops::ControlFlow::Continue(())),
                forall|j: int| bit_of(word, j) && !bit_of(it.element, j) ==> #[trigger] call_ensures(f, ((start + j) as usize,),
                    core::ops::ControlFlow::Continue(())),
            decreases it.element,
        {
            let ghost before = it.element;
            proof { lemma_lowest_bit(before); }
            match it.next() {
                None => {},
                Some(index) => {
                    proof {
                        let i = (start + index) as usize;
                        lemma_array_pos(i as int, len as int);
                        assert(array_bit(array@, i as int));
                        assert forall|j: usize| j < i && array_bit(array@, j as int) implies
                            #[trigger] call_ensures(f, (j,), core::ops::ControlFlow::Continue(())) by {
                            if j >= 64 * k {
                                lemma_array_pos(j as int, len as int);
                                let jj = j - start;
                                assert(j as int / 64 == k);
                                assert(jj == j as int % 64);
                                assert(!bit_at(before, jj as u64));
                                assert(bit_of(word, jj) && !bit_of(before, jj));
                                assert(((start + jj) as usize) == j);
                            }
                        }
                    }
                    let res = g(start + index);
                    match res {
                        core::ops::ControlFlow::Break(b) => {
                            proof {
                                let i = (start + index) as usize;
                                lemma_array_pos(i as int, len as int);
                                assert(array_bit(array@, i as int));
                                assert(call_ensures(f, (i,), core::ops::ControlFlow::Break(b)));
                                assert forall|j: usize| j < i && array_bit(array@, j as int) implies
                                    #[trigger] call_ensures(f, (j,), core::ops::ControlFlow::Continue(())) by {
                                    if j >= 64 * k {
                                        lemma_array_pos(j as int, len as int);
                                        let jj = j - start;
                                        assert(j as int / 64 == k);
                                        assert(jj == j as int % 64);
                                        assert(!bit_at(before, jj as u64));
                                        assert(bit_of(word, jj) && !bit_of(before, jj));
                                        assert(((start + jj) as usize) == j);
                                    }
                                }
                            }
                            return core::ops::ControlFlow::Break(b);
                        },
                        core::ops::ControlFlow::Continue(c) => {
                            proof {
                                assert(c == ());
                                assert forall|j: int| bit_of(word, j) && !bit_of(it.element, j) implies
                                    #[trigger] call_ensures(f, ((start + j) as usize,), core::ops::ControlFlow::Continue(())) by {
                                    if j != index {
                                        assert(bit_at(it.element, j as u64) == bit_at(before, j as u64));
                                    }
                                }
                            }
                        },
                    }
                },
            }
        }
        proof {
            lemma_bit_zero();
            assert forall|i: usize| i < 64 * (k + 1) && array_bit(array@, i as int) implies #[trigger] call_ensures(f, (i,),
                core::ops::ControlFlow::Continue(())) by {
                if i >= 64 * k {
                    lemma_array_pos(i as int, len as int);
                    let j = i - start;
                    assert(bit_of(word, j));
                    assert((start + j) as usize == i);
                }
            }
        }
        k += 1;
    }
    core::ops::ControlFlow::Continue(())
}

/// Iterator over the raised bits of an array of words, lowest first.
pub struct ArrayOneBitsIter<'a> {
    start_index: usize,
    blocks: &'a [u64],
    next_block: usize,
    bit_iter: OneBitsIter,
}

/// Iterator over the raised bits of `blocks`, lowest first.
pub fn array_one_bits_iter<'a>(blocks: &'a [u64]) -> (r: ArrayOneBitsIter<'a>)
    requires
        64 * blocks@.len() <= usize::MAX,
    ensures
        r.wf(),
        r.blocks() == blocks@,
        r.remaining() == Set::new(|i: int| array_bit(blocks@, i)),
{
    let len = blocks.len();
    let block = if len > 0 { blocks[0] } else { 0 };
    let r = ArrayOneBitsIter { start_index: 0, blocks, next_block: if len > 0 { 1 } else { 0 }, bit_iter: one_bits_iter(block) };
    proof {
        lemma_bit_zero();
        assert forall|i: int| #[trigger] r.remaining().contains(i) == array_bit(blocks@, i) by {
            if 0 <= i < 64 * len {
                lemma_array_pos(i, len as int);
            }
        }
        assert(r.remaining() =~= Set::new(|i: int| array_bit(blocks@, i)));
    }
    r
}

impl<'a> ArrayOneBitsIter<'a> {
    /// The words iterated.
    pub closed spec fn blocks(&self) -> Seq<u64> {
        self.blocks@
    }

    /// Indices still to be returned.
    pub closed spec fn remaining(&self) -> Set<int> {
        Set::new(|i: int|
            (self.start_index <= i < self.start_index + 64 && bit_of(self.bit_iter.element, i - self.start_index))
            || (array_bit(self.blocks@, i) && i / 64 >= self.next_block))
    }

    pub closed spec fn wf(&self) -> bool {
        &&& self.next_block <= self.blocks@.len()
        &&& 64 * self.blocks@.len() <= usize::MAX
        &&& (self.next_block == 0 ==> self.blocks@.len() == 0 && self.start_index == 0 && self.bit_iter.element == 0)
        &&& (self.next_block >= 1 ==> self.start_index == 64 * (self.next_block - 1))
        &&& (self.next_block >= 1 ==> forall|j: u64| j < 64 && #[trigger] bit_at(self.bit_iter.element, j)
                ==> bit_at(self.blocks@[self.next_block - 1], j))
    }

    /// Returns the smallest index still to be returned.
    pub fn next(&mut self) -> (r: Option<usize>)
        requires
            old(self).wf(),
        ensures
            final(self).wf(),
            final(self).blocks() == old(self).blocks(),
            match r {
                None => old(self).remaining() == Set::<int>::empty() && final(self).remaining() == Set::<int>::empty(),
                Some(i) => {
                    &&& old(self).remaining().contains(i as int)
                    &&& forall|x: int| #[trigger] old(self).remaining().contains(x) ==> i <= x
                    &&& final(self).remaining() == old(self).remaining().remove(i as int)
                },
            },
    {
        loop
            invariant
                self.wf(),
                self.blocks() == old(self).blocks(),
                self.remaining() == old(self).remaining(),
            decreases self.blocks@.len() - self.next_block,
        {
            let ghost before = *self;
            let ghost e = self.bit_iter.element;
            proof { lemma_lowest_bit(e); }
            if let Some(value) = self.bit_iter.next() {
                proof {
                    let i = self.start_index + value;
                    lemma_array_pos(self.start_index as int, self.blocks@.len() as int);
                    assert(bit_at(e, value as u64));
                    assert(before.remaining().contains(i));
                    assert forall|x: int| #[trigger] before.remaining().contains(x) implies i <= x by {
                        if self.start_index <= x < self.start_index + 64 && bit_of(e, x - self.start_index) {
                        } else {
                            assert(x / 64 >= self.next_block);
                        }
                    }
                    assert forall|x: int| #[trigger] self.remaining().contains(x) == before.remaining().remove(i).contains(x) by {
                        if self.start_index <= x < self.start_index + 64 {
                            assert(bit_at(self.bit_iter.element, (x - self.start_index) as u64)
                                == ((x - self.start_index) != value && bit_at(e, (x - self.start_index) as u64)));
                        }
                        if array_bit(self.blocks@, x) && x / 64 >= self.next_block {
                            lemma_array_pos(x, self.blocks@.len() as int);
                        }
                    }
                    assert(self.remaining() =~= before.remaining().remove(i));
                }
                return Some(self.start_index + value);
            } else {
                if self.next_block < self.blocks.len() {
                    let block = self.blocks[self.next_block];
                    self.bit_iter = one_bits_iter(block);
                    proof { lemma_array_pos(64 * self.next_block as int, self.blocks@.len() as int); }
                    self.start_index = self.next_block * 64;
                    self.next_block = self.next_block + 1;
                    proof {
                        lemma_bit_zero();
                        assert forall|x: int| #[trigger] self.remaining().contains(x) == before.remaining().contains(x) by {
                            if 0 <= x < 64 * self.blocks@.len() {
                                lemma_array_pos(x, self.blocks@.len() as int);
                            }
                        }
                        assert(self.remaining() =~= before.remaining());
                    }
                } else {
                    proof {
                        lemma_bit_zero();
                        assert forall|x: int| !#[trigger] before.remaining().contains(x) by {
                            if 0 <= x < 64 * self.blocks@.len() {
                                lemma_array_pos(x, self.blocks@.len() as int);
                            }
                        }
                        assert(before.remaining() =~= Set::<int>::empty());
                    }
                    return None;
                }
            }
        }
    }
}

} // verus!

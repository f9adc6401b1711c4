//! Bitset laid out like its serialized form: the fastest to materialize,
//! serialize and deserialize.
use vstd::prelude::*;
use crate::bit_utils::{bit_of, bit_count, count_ones, count_ones_below, get_bit_unchecked, lemma_bit_count_mono,
    lemma_bit_count_bound, lemma_bit_zero};
use crate::bitset::{BitSet, MAX_CAPACITY};
use crate::bitset_interface::{BitSetBase, LevelMasks, spec_contents};
use crate::serialization::{AccessError, Writer, SERIALIZATION_FORMAT_VER, decoded_mask, total_bits, level1_seq,
    data_seq, data_row, serialized, serialized_parts, spec_deserialize, lemma_total_bits_take,
    lemma_total_bits_prefix, lemma_decoded_masks, lemma_seq_lengths, lemma_total_bits_level1, lemma_row_length,
    lemma_lengths, lemma_counts_items, lemma_zero_items, lemma_le_bytes, zeros, padding, le_bytes, masks_bytes,
    counts_bytes};
use crate::primitive::lemma_pow256_values;

verus! {

/// Bitset with a linear layout: the level-0 mask, the level-1 masks of the
/// raised level-0 bits in order, and the data masks of the raised level-1
/// bits in order. A hierarchy mask is found by counting the raised bits
/// before its bit; the counts of the level-1 masks before each are kept.
pub struct ImmutableBitset {
    lvl0_mask: u64,
    lvl1_masks: Vec<u64>,
    lvl1_u64_index_starts: Vec<u16>,
    data: Vec<u64>,
}

impl ImmutableBitset {
    /// The level-1 masks, in order.
    pub closed spec fn level1_masks(&self) -> Seq<u64> {
        self.lvl1_masks@
    }

    /// The data masks, in order.
    pub closed spec fn data_masks(&self) -> Seq<u64> {
        self.data@
    }

    /// The indices in the set.
    pub open spec fn view(&self) -> Set<int> {
        spec_contents(self)
    }

    /// One level-1 mask per raised level-0 bit, one data mask per raised
    /// level-1 bit, the running counts, and no empty mask.
    pub closed spec fn wf(&self) -> bool {
        let l1 = self.lvl1_masks@;
        &&& l1.len() == bit_count(self.lvl0_mask, 64)
        &&& self.lvl1_u64_index_starts@.len() == l1.len()
        &&& forall|i: int| 0 <= i < l1.len() ==> #[trigger] self.lvl1_u64_index_starts@[i] as nat == total_bits(l1.take(i))
        &&& self.data@.len() == total_bits(l1)
        &&& forall|i: int| 0 <= i < l1.len() ==> #[trigger] l1[i] != 0
        &&& forall|i: int| 0 <= i < self.data@.len() ==> #[trigger] self.data@[i] != 0
    }

    /// The linear layout of `bitset`.
    pub fn from_bitset(bitset: &BitSet) -> (r: ImmutableBitset)
        requires
            bitset.wf(),
        ensures
            r.wf(),
            r@ == bitset@,
            r.spec_level0_mask() == bitset.spec_level0_mask(),
            r.level1_masks() == level1_seq(bitset, 64),
            r.data_masks() == data_seq(bitset, 64),
    {
        proof { bitset.lemma_hierarchy(); lemma_bit_zero(); }
        let lvl0_mask = LevelMasks::level0_mask(bitset);
        let mut lvl1_masks: Vec<u64> = Vec::new();
        let mut starts: Vec<u16> = Vec::new();
        let mut data: Vec<u64> = Vec::new();
        let mut bits_count: u16 = 0;
        let mut a0: usize = 0;
        while a0 < 64
            invariant
                bitset.wf(),
                lvl0_mask == bitset.spec_level0_mask(),
                a0 <= 64,
                lvl1_masks@ == level1_seq(bitset, a0 as int),
                data@ == data_seq(bitset, a0 as int),
                bits_count == total_bits(lvl1_masks@),
                bits_count <= 64 * lvl1_masks@.len(),
                lvl1_masks@.len() <= a0,
                starts@.len() == lvl1_masks@.len(),
                forall|i: int| 0 <= i < lvl1_masks@.len() ==> #[trigger] starts@[i] as nat == total_bits(lvl1_masks@.take(i)),
                forall|i: int| 0 <= i < lvl1_masks@.len() ==> #[trigger] lvl1_masks@[i] != 0,
                forall|i: int| 0 <= i < data@.len() ==> #[trigger] data@[i] != 0,
            decreases 64 - a0,
        {
            let ghost prev1 = lvl1_masks@;
            let ghost prev_d = data@;
            proof { lemma_seq_lengths(bitset, a0 as int); lemma_lengths(prev1); }
            if get_bit_unchecked(lvl0_mask, a0) {
                let level1_mask = LevelMasks::level1_mask(bitset, a0);
                proof {
                    assert(bit_of(lvl0_mask, a0 as int));
                    bitset.lemma_hierarchy();
                    assert(level1_mask != 0);
                }
                starts.push(bits_count);
                lvl1_masks.push(level1_mask);
                let c = count_ones(level1_mask);
                proof {
                    lemma_bit_count_bound(level1_mask, 64);
                    assert(bits_count + c <= 64 * (prev1.len() + 1)) by (nonlinear_arith)
                        requires bits_count <= 64 * prev1.len(), c <= 64;
                    assert(prev1.len() + 1 <= 64);
                    assert(bits_count + c <= 4096) by (nonlinear_arith)
                        requires bits_count + c <= 64 * (prev1.len() + 1), prev1.len() + 1 <= 64;
                }
                bits_count = bits_count + c as u16;
                proof {
                    let next = lvl1_masks@;
                    assert(next == level1_seq(bitset, a0 + 1));
                    assert(next.drop_last() =~= prev1);
                    assert(next.take(prev1.len() as int) =~= prev1);
                    assert forall|i: int| 0 <= i < next.len() implies #[trigger] next[i] != 0 by {
                        if i < prev1.len() {
                            assert(next[i] == prev1[i]);
                        }
                    }
                    assert forall|i: int| 0 <= i < next.len() implies #[trigger] starts@[i] as nat == total_bits(next.take(i)) by {
                        if i < prev1.len() {
                            assert(next.take(i) =~= prev1.take(i));
                        }
                    }
                }
                let mut a1: usize = 0;
                while a1 < 64
                    invariant
                        bitset.wf(),
                        a0 < 64,
                        bit_of(bitset.spec_level0_mask(), a0 as int),
                        level1_mask == bitset.spec_level1_mask(a0 as int),
                        a1 <= 64,
                        data@ == prev_d + data_row(bitset, a0 as int, a1 as int),
                        forall|i: int| 0 <= i < data@.len() ==> #[trigger] data@[i] != 0,
                    decreases 64 - a1,
                {
                    let ghost row = data@;
                    if get_bit_unchecked(level1_mask, a1) {
                        let data_mask = LevelMasks::data_mask(bitset, a0, a1);
                        proof {
                            bitset.lemma_hierarchy();
                            assert(bit_of(level1_mask, a1 as int));
                            assert(data_mask != 0);
                        }
                        data.push(data_mask);
                        proof {
                            assert(data@ =~= prev_d + data_row(bitset, a0 as int, a1 + 1));
                        }
                    }
                    a1 += 1;
                }
                proof { assert(data@ =~= data_seq(bitset, a0 + 1)); }
            } else {
                proof {
                    assert(level1_seq(bitset, a0 + 1) == prev1);
                    assert(data_seq(bitset, a0 + 1) == prev_d);
                }
            }
            a0 += 1;
        }
        let r = ImmutableBitset { lvl0_mask, lvl1_masks, lvl1_u64_index_starts: starts, data };
        proof {
            lemma_seq_lengths(bitset, 64);
            lemma_total_bits_level1(bitset, 64);
            lemma_decoded_masks(bitset);
            assert forall|i: int| #[trigger] r@.contains(i) == bitset@.contains(i) by {
                if 0 <= i < MAX_CAPACITY {
                    crate::bit_utils::lemma_index_parts(i);
                }
            }
            assert(r@ =~= bitset@);
        }
        r
    }

    /// The linear layout of any bitset, made through a [BitSet]: empty data
    /// blocks, which a bitset whose hierarchy is not trusted may reach, and
    /// level-1 blocks left without data are left out.
    pub fn from<B: LevelMasks>(bitset: B) -> (r: ImmutableBitset)
        requires
            bitset.spec_wf(),
        ensures
            r.wf(),
            r@ == spec_contents(&bitset),
    {
        let materialized = BitSet::from(bitset);
        Self::from_bitset(&materialized)
    }

    /// Where the level-1 mask of the raised level-0 bit `a0` is, and that
    /// the data masks under it are within the data masks.
    proof fn lemma_level1_position(&self, a0: int)
        requires
            self.wf(),
            0 <= a0 < 64,
            bit_of(self.lvl0_mask, a0),
        ensures
            0 <= bit_count(self.lvl0_mask, a0) < self.lvl1_masks@.len(),
            total_bits(self.lvl1_masks@.take(bit_count(self.lvl0_mask, a0) as int))
                + bit_count(self.lvl1_masks@[bit_count(self.lvl0_mask, a0) as int], 64) <= self.data@.len(),
            self.lvl1_u64_index_starts@[bit_count(self.lvl0_mask, a0) as int] as nat
                == total_bits(self.lvl1_masks@.take(bit_count(self.lvl0_mask, a0) as int)),
    {
        let r0 = bit_count(self.lvl0_mask, a0) as int;
        lemma_bit_count_mono(self.lvl0_mask, a0, 64);
        lemma_total_bits_take(self.lvl1_masks@, r0);
        lemma_total_bits_prefix(self.lvl1_masks@, r0 + 1);
    }

    /// Serialize to the binary format of [BitSet::serialize].
    pub fn serialize(&self) -> (r: Vec<u8>)
        requires
            self.wf(),
        ensures
            r@ == serialized_parts(self.spec_level0_mask(), self.level1_masks(), self.data_masks()),
    {
        let ghost l1 = self.lvl1_masks@;
        let ghost d = self.data@;
        proof {
            lemma_lengths(l1);
            lemma_lengths(d);
            lemma_bit_count_bound(self.lvl0_mask, 64);
            lemma_pow256_values();
            assert(d.len() <= 4096) by (nonlinear_arith) requires d.len() <= 64 * l1.len(), l1.len() <= 64;
        }
        let mut w = Writer::new();
        // version|lvl1_len|data_len||
        w.write_primitive::<u16>(SERIALIZATION_FORMAT_VER);
        w.write_primitive::<u16>(self.lvl1_masks.len() as u16);
        w.write_primitive::<u32>(self.data.len() as u32);
        proof {
            lemma_le_bytes(SERIALIZATION_FORMAT_VER as nat, 2);
            lemma_le_bytes(l1.len(), 2);
            lemma_le_bytes(d.len(), 4);
            lemma_le_bytes(self.lvl0_mask as nat, 8);
            assert(w.bytes().len() == 8);
        }
        w.write_padding_for::<u64>();
        // lvl0_mask
        w.write_mask(self.lvl0_mask);
        w.write_padding_for::<u8>();
        // [lvl0_bitcount]: a single 64-bit word, whose count starts at 0
        let lvl0_bitcounts: [u8; 8] = [0u8; 8];
        let ghost before_counts = w.bytes();
        w.write_primitives(&lvl0_bitcounts);
        proof {
            assert(padding(8, 8) == 0);
            assert(padding(16, 1) == 0);
            assert(before_counts.len() == 16);
            lemma_zero_items(lvl0_bitcounts@);
            assert(w.bytes() =~= before_counts + zeros(8));
            assert(padding(24, 8) == 0);
        }
        let ghost header = w.bytes();
        w.write_padding_for::<u64>();
        proof { assert(w.bytes() =~= header); }
        // [lvl1_mask]
        w.write_masks(self.lvl1_masks.as_slice());
        let ghost with_masks = w.bytes();
        proof {
            assert(with_masks.len() == 24 + 8 * l1.len());
            assert(padding((24 + 8 * l1.len()) as nat, 2) == 0);
        }
        w.write_padding_for::<u16>();
        proof { assert(w.bytes() =~= with_masks); }
        // [lvl1_bitcount]
        w.write_primitives(self.lvl1_u64_index_starts.as_slice());
        proof { lemma_counts_items(self.lvl1_u64_index_starts@, l1); }
        w.write_padding_for::<u64>();
        // [data]
        w.write_masks(self.data.as_slice());
        proof {
            assert(w.bytes() =~= serialized_parts(self.lvl0_mask, l1, d));
        }
        w.into_bytes()
    }

    /// Read a bitset from its binary format (see [BitSet::deserialize]).
    pub fn deserialize(data: &[u8]) -> (r: Result<ImmutableBitset, AccessError>)
        ensures
            match spec_deserialize(data@) {
                Ok(set) => r matches Ok(b) && b.wf() && b@ == set,
                Err(e) => r == Err::<ImmutableBitset, AccessError>(e),
            },
    {
        match BitSet::deserialize(data) {
            Ok(bitset) => Ok(Self::from_bitset(&bitset)),
            Err(e) => Err(e),
        }
    }
}

/// The linear layout of a bitset serializes to the same bytes as the bitset.
pub proof fn lemma_serialize_as_bitset(r: &ImmutableBitset, b: &BitSet)
    requires
        r.spec_level0_mask() == b.spec_level0_mask(),
        r.level1_masks() == level1_seq(b, 64),
        r.data_masks() == data_seq(b, 64),
    ensures
        serialized_parts(r.spec_level0_mask(), r.level1_masks(), r.data_masks()) == serialized(b),
{
}

/// Reading the serialized linear layout of a bitset gives back its indices.
pub proof fn lemma_immutable_round_trip(r: &ImmutableBitset, b: &BitSet)
    requires
        b.wf(),
        r@ == b@,
        r.spec_level0_mask() == b.spec_level0_mask(),
        r.level1_masks() == level1_seq(b, 64),
        r.data_masks() == data_seq(b, 64),
    ensures
        spec_deserialize(serialized_parts(r.spec_level0_mask(), r.level1_masks(), r.data_masks()))
            == Ok::<Set<int>, AccessError>(r@),
{
    crate::serialization::lemma_serialize_round_trip(b);
}

impl BitSetBase for ImmutableBitset {
    open spec fn spec_trusted_hierarchy() -> bool {
        true
    }

    fn trusted_hierarchy() -> (r: bool) {
        true
    }
}

impl LevelMasks for ImmutableBitset {
    open spec fn spec_wf(&self) -> bool {
        self.wf()
    }

    closed spec fn spec_level0_mask(&self) -> u64 {
        self.lvl0_mask
    }

    closed spec fn spec_level1_mask(&self, level0_index: int) -> u64 {
        if bit_of(self.lvl0_mask, level0_index) {
            self.lvl1_masks@[bit_count(self.lvl0_mask, level0_index) as int]
        } else {
            0
        }
    }

    closed spec fn spec_data_mask(&self, level0_index: int, level1_index: int) -> u64 {
        decoded_mask(self.lvl0_mask, self.lvl1_masks@, self.data@, level0_index, level1_index)
    }

    fn level0_mask(&self) -> (r: u64) {
        self.lvl0_mask
    }

    fn level1_mask(&self, level0_index: usize) -> (r: u64) {
        if !get_bit_unchecked(self.lvl0_mask, level0_index) {
            return 0;
        }
        let r0 = count_ones_below(self.lvl0_mask, level0_index);
        proof { self.lemma_level1_position(level0_index as int); }
        self.lvl1_masks[r0]
    }

    fn data_mask(&self, level0_index: usize, level1_index: usize) -> (r: u64) {
        if !get_bit_unchecked(self.lvl0_mask, level0_index) {
            return 0;
        }
        let r0 = count_ones_below(self.lvl0_mask, level0_index);
        proof { self.lemma_level1_position(level0_index as int); }
        let level1_mask = self.lvl1_masks[r0];
        if !get_bit_unchecked(level1_mask, level1_index) {
            return 0;
        }
        let offset = count_ones_below(level1_mask, level1_index);
        let start = self.lvl1_u64_index_starts[r0];
        let data_len = self.data.len();
        proof {
            lemma_bit_count_mono(level1_mask, level1_index as int, 64);
            assert(level1_mask == self.lvl1_masks@[r0 as int]);
            assert(start + offset < data_len);
        }
        let index = start as usize + offset;
        self.data[index]
    }

    proof fn lemma_hierarchy(&self) {
        lemma_bit_zero();
        assert forall|l0: int| 0 <= l0 < 64 && bit_of(self.spec_level0_mask(), l0) implies
            #[trigger] self.spec_level1_mask(l0) != 0 by {
            self.lemma_level1_position(l0);
        }
        assert forall|l0: int, l1: int|
            0 <= l0 < 64 && 0 <= l1 < 64 && bit_of(self.spec_level0_mask(), l0) && bit_of(self.spec_level1_mask(l0), l1)
            implies #[trigger] self.spec_data_mask(l0, l1) != 0 by {
            self.lemma_level1_position(l0);
            let r0 = bit_count(self.lvl0_mask, l0) as int;
            lemma_bit_count_mono(self.lvl1_masks@[r0], l1, 64);
        }
    }
}

impl crate::bitset_interface::BitSetInterface for ImmutableBitset {
}

} // verus!

//! Binary format of a bitset. All reads and writes are little-endian.
use vstd::prelude::*;
use crate::primitive::{Primitive, pow256, lemma_pow256_values};
use crate::bit_utils::{bit_at, bit_of, bit_count, count_ones, get_bit_unchecked, lemma_bit_zero};
use crate::bitset::{BitSet, MAX_CAPACITY, idx0, idx1, idx2, data_block_keys, level1_block_keys};
use crate::bitset_interface::LevelMasks;

verus! {

/// Current serialization format version.
pub const SERIALIZATION_FORMAT_VER: u16 = 3;

/// Failure to read a serialized bitset.
#[derive(Clone, Copy, Debug, PartialEq, Eq, Structural)]
pub enum AccessError {
    /// (requested align)
    Unaligned(usize),
    /// (version found)
    FormatMismatch(u16),
    /// The data ended before the structure did.
    IOError,
    /// The counts of the structure disagree with its masks.
    InvalidData,
}

/// The `n` little-endian bytes of `x` (its lowest `n` bytes).
pub open spec fn le_bytes(x: nat, n: nat) -> Seq<u8>
    decreases n,
{
    if n == 0 {
        Seq::empty()
    } else {
        seq![(x % 256) as u8] + le_bytes(x / 256, (n - 1) as nat)
    }
}

/// The value of little-endian bytes.
pub open spec fn le_value(b: Seq<u8>) -> nat
    decreases b.len(),
{
    if b.len() == 0 {
        0
    } else {
        b[0] as nat + 256 * le_value(b.drop_first())
    }
}

/// `n` zero bytes.
pub open spec fn zeros(n: nat) -> Seq<u8> {
    Seq::new(n, |k: int| 0u8)
}

/// Bytes needed after position `pos` to reach a multiple of `align`.
pub open spec fn padding(pos: nat, align: nat) -> nat {
    if align == 0 { 0 } else { ((align as int - (pos % align) as int) % (align as int)) as nat }
}

pub proof fn lemma_pow256_pos(n: nat)
    ensures
        pow256(n) >= 1,
    decreases n,
{
    if n > 0 {
        lemma_pow256_pos((n - 1) as nat);
    }
}

/// The little-endian bytes of `x` are `n` bytes, whose value is `x` when it fits.
pub proof fn lemma_le_bytes(x: nat, n: nat)
    ensures
        le_bytes(x, n).len() == n,
        x < pow256(n) ==> le_value(le_bytes(x, n)) == x,
    decreases n,
{
    if n > 0 {
        lemma_le_bytes(x / 256, (n - 1) as nat);
        let b = le_bytes(x, n);
        assert(b.drop_first() =~= le_bytes(x / 256, (n - 1) as nat));
        if x < pow256(n) {
            assert(x / 256 < pow256((n - 1) as nat)) by (nonlinear_arith)
                requires x < 256 * pow256((n - 1) as nat);
            assert(x == x % 256 + 256 * (x / 256)) by (nonlinear_arith);
        }
    }
}

/// Little-endian bytes are below `256^len`.
pub proof fn lemma_le_value_bound(b: Seq<u8>)
    ensures
        le_value(b) < pow256(b.len()),
    decreases b.len(),
{
    if b.len() > 0 {
        lemma_le_value_bound(b.drop_first());
        let r = le_value(b.drop_first());
        let p = pow256((b.len() - 1) as nat);
        assert(b[0] as nat + 256 * r < 256 * p) by (nonlinear_arith)
            requires r < p, b[0] < 256;
    }
}

/// Zero bytes that bring `pos` to the alignment of `T`.
pub fn get_padding_for<T: Primitive>(pos: usize) -> (r: usize)
    ensures
        r == padding(pos as nat, T::spec_byte_size()),
        r < T::spec_byte_size(),
{
    let align = T::byte_size();
    (align - pos % align) % align
}

/// `Ok` for the current format version, its mismatch otherwise.
pub fn check_version(version: u16) -> (r: Result<(), AccessError>)
    ensures
        r is Ok <==> version == SERIALIZATION_FORMAT_VER,
        r is Err ==> r == Err::<(), AccessError>(AccessError::FormatMismatch(version)),
{
    if version != SERIALIZATION_FORMAT_VER {
        return Err(AccessError::FormatMismatch(version));
    }
    Ok(())
}

/// Byte offsets of the parts of the binary form of a bitset with
/// `lvl1_len` level-1 masks (see [serialized]).
#[derive(Clone, Copy, Debug)]
pub struct Offsets {
    pub lvl1_bitcounts_offset: usize,
    pub data_offset: usize,
}

impl Offsets {
    /// The level-0 mask follows the 8 header bytes.
    pub const LVL0_MASK_OFFSET: usize = 8;

    /// The level-0 bit counts follow the level-0 mask.
    pub const LVL0_BITCOUNTS_OFFSET: usize = 16;

    /// The level-1 masks follow the level-0 bit counts.
    pub const LVL1_MASKS_OFFSET: usize = 24;

    pub fn new(lvl1_len: usize) -> (r: Offsets)
        requires
            24 + 10 * lvl1_len + 7 <= usize::MAX,
        ensures
            r.lvl1_bitcounts_offset == 24 + 8 * lvl1_len,
            r.data_offset == data_offset(lvl1_len as nat),
    {
        let mut offset = Self::LVL1_MASKS_OFFSET;
        offset += lvl1_len * 8;
        offset += get_padding_for::<u16>(offset);
        let lvl1_bitcounts_offset = offset;
        offset += lvl1_len * 2;
        offset += get_padding_for::<u64>(offset);
        proof { assert(padding((24 + 8 * lvl1_len) as nat, 2) == 0); }
        Offsets { lvl1_bitcounts_offset, data_offset: offset }
    }

    /// Length of the binary form with `data_len` data masks.
    pub fn len(&self, data_len: usize) -> (r: usize)
        requires
            self.data_offset + 8 * data_len <= usize::MAX,
        ensures
            r == self.data_offset + 8 * data_len,
    {
        self.data_offset + data_len * 8
    }
}

/// Writer of a byte buffer, which counts its position.
pub struct Writer {
    buf: Vec<u8>,
}

impl Writer {
    /// The bytes written so far.
    pub closed spec fn bytes(&self) -> Seq<u8> {
        self.buf@
    }

    pub fn new() -> (r: Writer)
        ensures
            r.bytes() == Seq::<u8>::empty(),
    {
        Writer { buf: Vec::new() }
    }

    /// Number of bytes written.
    pub fn pos(&self) -> (r: usize)
        ensures
            r == self.bytes().len(),
    {
        self.buf.len()
    }

    /// The bytes written.
    pub fn into_bytes(self) -> (r: Vec<u8>)
        ensures
            r@ == self.bytes(),
    {
        self.buf
    }

    pub fn write_buf(&mut self, buf: &[u8])
        ensures
            final(self).bytes() == old(self).bytes() + buf@,
    {
        let ghost start = self.buf@;
        let mut k: usize = 0;
        while k < buf.len()
            invariant
                k <= buf@.len(),
                self.buf@ == start + buf@.subrange(0, k as int),
            decreases buf@.len() - k,
        {
            self.buf.push(buf[k]);
            k += 1;
            proof {
                assert(self.buf@ =~= start + buf@.subrange(0, k as int));
            }
        }
        proof {
            assert(buf@.subrange(0, buf@.len() as int) =~= buf@);
        }
    }

    /// Writes the `n` lowest bytes of `x`, lowest first.
    fn write_le(&mut self, x: u64, n: usize)
        requires
            n <= 8,
        ensures
            final(self).bytes() == old(self).bytes() + le_bytes(x as nat, n as nat),
    {
        let ghost start = self.buf@;
        let ghost all = le_bytes(x as nat, n as nat);
        proof { lemma_le_bytes(x as nat, n as nat); }
        let mut v: u64 = x;
        let mut k: usize = 0;
        while k < n
            invariant
                k <= n,
                all == le_bytes(x as nat, n as nat),
                all.len() == n,
                self.buf@ == start + all.subrange(0, k as int),
                all.subrange(k as int, n as int) == le_bytes(v as nat, (n - k) as nat),
            decreases n - k,
        {
            let ghost rest = le_bytes(v as nat, (n - k) as nat);
            assert(rest =~= seq![(v % 256) as u8] + le_bytes((v / 256) as nat, (n - k - 1) as nat));
            let byte = (v % 256) as u8;
            self.buf.push(byte);
            v = v / 256;
            k += 1;
            proof {
                assert(all[k - 1] == rest[0]);
                assert(self.buf@ =~= start + all.subrange(0, k as int));
                assert(all.subrange(k as int, n as int) =~= rest.drop_first());
            }
        }
        proof {
            assert(all.subrange(0, n as int) =~= all);
        }
    }

    /// Writes `primitive`, little-endian.
    pub fn write_primitive<T: Primitive>(&mut self, primitive: T)
        ensures
            final(self).bytes() == old(self).bytes() + le_bytes(primitive.spec_value(), T::spec_byte_size()),
    {
        let n = T::byte_size();
        self.write_le(primitive.as_u64(), n);
    }

    /// Writes a mask, little-endian.
    pub fn write_mask(&mut self, mask: u64)
        ensures
            final(self).bytes() == old(self).bytes() + le_bytes(mask as nat, 8),
    {
        self.write_le(mask, 8);
    }

    /// Writes each primitive of `buf`, little-endian.
    pub fn write_primitives<T: Primitive>(&mut self, buf: &[T])
        ensures
            final(self).bytes() == old(self).bytes() + items_bytes(buf@),
    {
        let ghost start = self.bytes();
        let mut k: usize = 0;
        while k < buf.len()
            invariant
                k <= buf@.len(),
                self.bytes() == start + items_bytes(buf@.take(k as int)),
            decreases buf@.len() - k,
        {
            self.write_primitive(buf[k]);
            proof { assert(buf@.take(k + 1).drop_last() =~= buf@.take(k as int)); }
            k += 1;
            proof { assert(self.bytes() =~= start + items_bytes(buf@.take(k as int))); }
        }
        proof { assert(buf@.take(k as int) =~= buf@); }
    }

    /// Writes each mask of `buf`, little-endian.
    pub fn write_masks(&mut self, buf: &[u64])
        ensures
            final(self).bytes() == old(self).bytes() + masks_bytes(buf@),
    {
        let ghost start = self.bytes();
        let mut k: usize = 0;
        while k < buf.len()
            invariant
                k <= buf@.len(),
                self.bytes() == start + masks_bytes(buf@.take(k as int)),
            decreases buf@.len() - k,
        {
            self.write_mask(buf[k]);
            proof { assert(buf@.take(k + 1).drop_last() =~= buf@.take(k as int)); }
            k += 1;
            proof { assert(self.bytes() =~= start + masks_bytes(buf@.take(k as int))); }
        }
        proof { assert(buf@.take(k as int) =~= buf@); }
    }

    /// Writes zero bytes up to the alignment of `T`.
    pub fn write_padding_for<T: Primitive>(&mut self)
        ensures
            final(self).bytes() == old(self).bytes() + zeros(padding(old(self).bytes().len(), T::spec_byte_size())),
    {
        let align = T::byte_size();
        let pad = (align - self.buf.len() % align) % align;
        let ghost start = self.buf@;
        let mut k: usize = 0;
        while k < pad
            invariant
                k <= pad,
                self.buf@ == start + zeros(k as nat),
            decreases pad - k,
        {
            self.buf.push(0);
            k += 1;
            proof { assert(self.buf@ =~= start + zeros(k as nat)); }
        }
    }
}

/// Primitives one after the other, each little-endian.
pub open spec fn items_bytes<T: Primitive>(items: Seq<T>) -> Seq<u8>
    decreases items.len(),
{
    if items.len() == 0 {
        Seq::empty()
    } else {
        items_bytes(items.drop_last()) + le_bytes(items.last().spec_value(), T::spec_byte_size())
    }
}

/// Zero bytes, written one by one, are zero bytes.
pub proof fn lemma_zero_items(items: Seq<u8>)
    requires
        forall|k: int| 0 <= k < items.len() ==> items[k] == 0,
    ensures
        items_bytes(items) == zeros(items.len()),
    decreases items.len(),
{
    if items.len() > 0 {
        lemma_zero_items(items.drop_last());
        reveal_with_fuel(le_bytes, 2);
        assert(items_bytes(items) =~= zeros(items.len()));
    }
}

/// Writer that gathers up to 64 primitives before it hands them to its
/// [Writer]. Call [BufferedWriter::close] to get the writer back with
/// everything written.
pub struct BufferedWriter<T> {
    writer: Writer,
    buf: Vec<T>,
}

impl<T: Primitive> BufferedWriter<T> {
    /// Everything written: what the writer holds, then the buffered items.
    pub closed spec fn bytes(&self) -> Seq<u8> {
        self.writer.bytes() + items_bytes(self.buf@)
    }

    pub closed spec fn wf(&self) -> bool {
        self.buf@.len() <= 64
    }

    pub fn new(writer: Writer) -> (r: Self)
        ensures
            r.wf(),
            r.bytes() == writer.bytes(),
    {
        let r = BufferedWriter { writer, buf: Vec::new() };
        proof { assert(r.bytes() =~= writer.bytes()); }
        r
    }

    /// Hands the buffered items to the writer.
    fn flush(&mut self)
        requires
            old(self).wf(),
        ensures
            final(self).wf(),
            final(self).bytes() == old(self).bytes(),
            final(self).buf@.len() == 0,
    {
        let ghost start = self.writer.bytes();
        let mut k: usize = 0;
        while k < self.buf.len()
            invariant
                k <= self.buf@.len(),
                self.buf@ == old(self).buf@,
                self.writer.bytes() == start + items_bytes(self.buf@.take(k as int)),
            decreases self.buf@.len() - k,
        {
            let item = self.buf[k];
            self.writer.write_primitive(item);
            proof {
                assert(self.buf@.take(k + 1).drop_last() =~= self.buf@.take(k as int));
            }
            k += 1;
            proof {
                assert(self.writer.bytes() =~= start + items_bytes(self.buf@.take(k as int)));
            }
        }
        proof { assert(self.buf@.take(k as int) =~= self.buf@); }
        self.buf.clear();
        proof { assert(self.bytes() =~= old(self).bytes()); }
    }

    fn write_impl(&mut self, item: T)
        requires
            old(self).wf(),
        ensures
            final(self).wf(),
            final(self).bytes() == old(self).bytes() + le_bytes(item.spec_value(), T::spec_byte_size()),
    {
        if self.buf.len() == 64 {
            self.flush();
        }
        let ghost before = self.buf@;
        self.buf.push(item);
        proof {
            assert(self.buf@.drop_last() =~= before);
            assert(self.bytes() =~= old(self).bytes() + le_bytes(item.spec_value(), T::spec_byte_size()));
        }
    }

    /// Writes `item`, little-endian.
    pub fn write_primitive(&mut self, item: T)
        requires
            old(self).wf(),
        ensures
            final(self).wf(),
            final(self).bytes() == old(self).bytes() + le_bytes(item.spec_value(), T::spec_byte_size()),
    {
        self.write_impl(item)
    }

    /// Flushes, and gives the writer back.
    pub fn close(self) -> (r: Writer)
        requires
            self.wf(),
        ensures
            r.bytes() == self.bytes(),
    {
        let mut this = self;
        this.flush();
        proof { assert(this.bytes() =~= this.writer.bytes()); }
        this.writer
    }
}

impl BufferedWriter<u64> {
    /// Writes a mask, little-endian.
    pub fn write_mask(&mut self, item: u64)
        requires
            old(self).wf(),
        ensures
            final(self).wf(),
            final(self).bytes() == old(self).bytes() + le_bytes(item as nat, 8),
    {
        self.write_impl(item)
    }
}

/// Reader of a byte slice, which counts its position.
pub struct Reader<'a> {
    data: &'a [u8],
    pos: usize,
}

impl<'a> Reader<'a> {
    /// The bytes read from.
    pub closed spec fn data(&self) -> Seq<u8> {
        self.data@
    }

    /// Position of the next byte to read.
    pub closed spec fn spec_pos(&self) -> int {
        self.pos as int
    }

    pub closed spec fn wf(&self) -> bool {
        self.pos <= self.data@.len()
    }

    pub fn new(data: &'a [u8]) -> (r: Reader<'a>)
        ensures
            r.wf(),
            r.data() == data@,
            r.spec_pos() == 0,
    {
        Reader { data, pos: 0 }
    }

    pub fn pos(&self) -> (r: usize)
        ensures
            r == self.spec_pos(),
    {
        self.pos
    }

    /// Reads the value of the next `n` bytes, little-endian.
    fn read_le(&mut self, n: usize) -> (r: Result<u64, AccessError>)
        requires
            old(self).wf(),
            n <= 8,
        ensures
            final(self).wf(),
            final(self).data() == old(self).data(),
            match r {
                Ok(v) => {
                    &&& old(self).spec_pos() + n <= old(self).data().len()
                    &&& v == le_value(old(self).data().subrange(old(self).spec_pos(), old(self).spec_pos() + n))
                    &&& final(self).spec_pos() == old(self).spec_pos() + n
                },
                Err(e) => e == AccessError::IOError && old(self).spec_pos() + n > old(self).data().len()
                    && final(self).spec_pos() == old(self).spec_pos(),
            },
    {
        if self.data.len() - self.pos < n {
            return Err(AccessError::IOError);
        }
        let len = self.data.len();
        let ghost b = self.data@.subrange(self.pos as int, self.pos + n);
        let mut v: u64 = 0;
        let mut k: usize = n;
        proof {
            lemma_pow256_values();
        }
        while k > 0
            invariant
                self.wf(),
                len == self.data@.len(),
                self.pos + n <= self.data@.len(),
                n <= 8,
                k <= n,
                b == self.data@.subrange(self.pos as int, self.pos + n),
                v == le_value(b.subrange(k as int, n as int)),
                v < pow256((n - k) as nat),
            decreases k,
        {
            let ghost tail = b.subrange(k as int, n as int);
            let byte = self.data[self.pos + k - 1];
            proof {
                let nb = b.subrange(k - 1, n as int);
                assert(nb.drop_first() =~= tail);
                assert(nb[0] == byte);
                lemma_pow256_values();
                assert(pow256((n - k + 1) as nat) == 256 * pow256((n - k) as nat));
                assert(pow256((n - k + 1) as nat) <= 18446744073709551616) by {
                    lemma_pow256_mono((n - k + 1) as nat, 8);
                }
                assert(v * 256 + byte < 256 * pow256((n - k) as nat)) by (nonlinear_arith)
                    requires v < pow256((n - k) as nat), byte < 256;
            }
            v = v * 256 + byte as u64;
            k -= 1;
        }
        proof {
            assert(b.subrange(0, n as int) =~= b);
        }
        self.pos = self.pos + n;
        Ok(v)
    }

    /// Reads a primitive, little-endian.
    pub fn read_primitive<T: Primitive>(&mut self) -> (r: Result<T, AccessError>)
        requires
            old(self).wf(),
        ensures
            final(self).wf(),
            final(self).data() == old(self).data(),
            match r {
                Ok(v) => {
                    &&& old(self).spec_pos() + T::spec_byte_size() <= old(self).data().len()
                    &&& v.spec_value() == le_value(old(self).data().subrange(old(self).spec_pos(),
                        old(self).spec_pos() + T::spec_byte_size()))
                    &&& final(self).spec_pos() == old(self).spec_pos() + T::spec_byte_size()
                },
                Err(e) => e == AccessError::IOError && old(self).spec_pos() + T::spec_byte_size() > old(self).data().len()
                    && final(self).spec_pos() == old(self).spec_pos(),
            },
    {
        let n = T::byte_size();
        let v = self.read_le(n)?;
        proof {
            let b = old(self).data().subrange(old(self).spec_pos(), old(self).spec_pos() + n);
            lemma_le_value_bound(b);
            T::lemma_max(); 
        }
        Ok(T::from_u64(v))
    }
}

impl<'a> Reader<'a> {
    /// Reads the format version, which must be the current one.
    pub fn read_version(&mut self) -> (r: Result<u16, AccessError>)
        requires
            old(self).wf(),
        ensures
            final(self).wf(),
            final(self).data() == old(self).data(),
            match r {
                Ok(v) => {
                    &&& old(self).spec_pos() + 2 <= old(self).data().len()
                    &&& v == SERIALIZATION_FORMAT_VER
                    &&& le_value(old(self).data().subrange(old(self).spec_pos(), old(self).spec_pos() + 2)) == v
                    &&& final(self).spec_pos() == old(self).spec_pos() + 2
                },
                Err(AccessError::FormatMismatch(v)) => {
                    &&& old(self).spec_pos() + 2 <= old(self).data().len()
                    &&& le_value(old(self).data().subrange(old(self).spec_pos(), old(self).spec_pos() + 2)) == v
                    &&& v != SERIALIZATION_FORMAT_VER
                    &&& final(self).spec_pos() == old(self).spec_pos() + 2
                },
                Err(e) => e == AccessError::IOError && old(self).spec_pos() + 2 > old(self).data().len()
                    && final(self).spec_pos() == old(self).spec_pos(),
            },
    {
        let version: u16 = self.read_primitive()?;
        check_version(version)?;
        Ok(version)
    }

    /// Reads a mask, little-endian.
    pub fn read_mask(&mut self) -> (r: Result<u64, AccessError>)
        requires
            old(self).wf(),
        ensures
            final(self).wf(),
            final(self).data() == old(self).data(),
            match r {
                Ok(v) => {
                    &&& old(self).spec_pos() + 8 <= old(self).data().len()
                    &&& v == le_value(old(self).data().subrange(old(self).spec_pos(), old(self).spec_pos() + 8))
                    &&& final(self).spec_pos() == old(self).spec_pos() + 8
                },
                Err(e) => e == AccessError::IOError && old(self).spec_pos() + 8 > old(self).data().len()
                    && final(self).spec_pos() == old(self).spec_pos(),
            },
    {
        self.read_le(8)
    }

    /// Skips `len` bytes.
    fn skip_bytes(&mut self, len: usize) -> (r: Result<(), AccessError>)
        requires
            old(self).wf(),
        ensures
            final(self).wf(),
            final(self).data() == old(self).data(),
            match r {
                Ok(_) => old(self).spec_pos() + len <= old(self).data().len()
                    && final(self).spec_pos() == old(self).spec_pos() + len,
                Err(e) => e == AccessError::IOError && old(self).spec_pos() + len > old(self).data().len()
                    && final(self).spec_pos() == old(self).spec_pos(),
            },
    {
        if self.data.len() - self.pos < len {
            return Err(AccessError::IOError);
        }
        self.pos = self.pos + len;
        Ok(())
    }

    /// Skips the padding up to the alignment of `T`.
    pub fn read_padding_for<T: Primitive>(&mut self) -> (r: Result<(), AccessError>)
        requires
            old(self).wf(),
        ensures
            final(self).wf(),
            final(self).data() == old(self).data(),
            match r {
                Ok(_) => old(self).spec_pos() + padding(old(self).spec_pos() as nat, T::spec_byte_size()) <= old(self).data().len()
                    && final(self).spec_pos() == old(self).spec_pos() + padding(old(self).spec_pos() as nat, T::spec_byte_size()),
                Err(e) => e == AccessError::IOError
                    && old(self).spec_pos() + padding(old(self).spec_pos() as nat, T::spec_byte_size()) > old(self).data().len()
                    && final(self).spec_pos() == old(self).spec_pos(),
            },
    {
        let align = T::byte_size();
        let pad = (align - self.pos % align) % align;
        self.skip_bytes(pad)
    }

    /// Skips `n` items of `T`.
    pub fn skip_n<T: Primitive>(&mut self, n: usize) -> (r: Result<(), AccessError>)
        requires
            old(self).wf(),
        ensures
            final(self).wf(),
            final(self).data() == old(self).data(),
            match r {
                Ok(_) => old(self).spec_pos() + n * T::spec_byte_size() <= old(self).data().len()
                    && final(self).spec_pos() == old(self).spec_pos() + n * T::spec_byte_size(),
                Err(e) => e == AccessError::IOError && old(self).spec_pos() + n * T::spec_byte_size() > old(self).data().len()
                    && final(self).spec_pos() == old(self).spec_pos(),
            },
    {
        let size = T::byte_size();
        let room = self.data.len() - self.pos;
        if n > room / size {
            proof {
                assert(n * size > room) by (nonlinear_arith) requires n > room / size, size >= 1;
            }
            return Err(AccessError::IOError);
        }
        proof {
            assert(n * size <= room) by (nonlinear_arith) requires n <= room / size, size >= 1;
        }
        self.skip_bytes(n * size)
    }

    /// Reads `len` masks, little-endian.
    pub fn read_masks(&mut self, len: usize) -> (r: Result<Vec<u64>, AccessError>)
        requires
            old(self).wf(),
        ensures
            final(self).wf(),
            final(self).data() == old(self).data(),
            match r {
                Ok(v) => {
                    &&& old(self).spec_pos() + 8 * len <= old(self).data().len()
                    &&& v@ == parse_masks(old(self).data(), old(self).spec_pos(), len as int)
                    &&& final(self).spec_pos() == old(self).spec_pos() + 8 * len
                },
                Err(e) => e == AccessError::IOError && old(self).spec_pos() + 8 * len > old(self).data().len()
                    && final(self).spec_pos() == old(self).spec_pos(),
            },
    {
        let room = self.data.len() - self.pos;
        if len > room / 8 {
            proof {
                assert(8 * len > room) by (nonlinear_arith) requires len > room / 8;
            }
            return Err(AccessError::IOError);
        }
        proof {
            assert(8 * len <= room) by (nonlinear_arith) requires len <= room / 8;
        }
        let ghost start = self.pos as int;
        let mut masks: Vec<u64> = Vec::with_capacity(len);
        let mut k: usize = 0;
        while k < len
            invariant
                self.wf(),
                self.data@ == old(self).data(),
                start == old(self).spec_pos(),
                start + 8 * len <= self.data@.len(),
                k <= len,
                self.pos == start + 8 * k,
                masks@ == parse_masks(self.data@, start, k as int),
            decreases len - k,
        {
            let mask = match self.read_le(8) {
                Ok(v) => v,
                Err(e) => {
                    proof { assert(false); }
                    return Err(e);
                },
            };
            masks.push(mask);
            k += 1;
            proof {
                assert(masks@ =~= parse_masks(self.data@, start, k as int));
            }
        }
        Ok(masks)
    }
}

impl<'a> Reader<'a> {
    /// Reads `len` primitives, little-endian.
    pub fn read_primitives<T: Primitive>(&mut self, len: usize) -> (r: Result<Vec<T>, AccessError>)
        requires
            old(self).wf(),
        ensures
            final(self).wf(),
            final(self).data() == old(self).data(),
            match r {
                Ok(v) => {
                    &&& old(self).spec_pos() + len * T::spec_byte_size() <= old(self).data().len()
                    &&& v@.len() == len
                    &&& forall|k: int| 0 <= k < len ==> #[trigger] v@[k].spec_value() == le_value(old(self).data().subrange(
                        old(self).spec_pos() + k * T::spec_byte_size(), old(self).spec_pos() + (k + 1) * T::spec_byte_size()))
                    &&& final(self).spec_pos() == old(self).spec_pos() + len * T::spec_byte_size()
                },
                Err(e) => e == AccessError::IOError && old(self).spec_pos() + len * T::spec_byte_size() > old(self).data().len()
                    && final(self).spec_pos() == old(self).spec_pos(),
            },
    {
        let size = T::byte_size();
        let room = self.data.len() - self.pos;
        if len > room / size {
            proof {
                assert(len * size > room) by (nonlinear_arith) requires len > room / size, size >= 1;
            }
            return Err(AccessError::IOError);
        }
        proof {
            assert(len * size <= room) by (nonlinear_arith) requires len <= room / size, size >= 1;
        }
        let ghost start = self.pos as int;
        let mut items: Vec<T> = Vec::with_capacity(len);
        let mut k: usize = 0;
        while k < len
            invariant
                self.wf(),
                self.data@ == old(self).data(),
                start == old(self).spec_pos(),
                size == T::spec_byte_size(),
                start + len * size <= self.data@.len(),
                k <= len,
                self.pos == start + k * size,
                items@.len() == k,
                forall|q: int| 0 <= q < k ==> #[trigger] items@[q].spec_value() == le_value(self.data@.subrange(
                    start + q * size, start + (q + 1) * size)),
            decreases len - k,
        {
            proof {
                assert((k + 1) * size <= len * size) by (nonlinear_arith) requires k < len;
                assert(start + k * size + size == start + (k + 1) * size) by (nonlinear_arith);
            }
            let item = match self.read_primitive::<T>() {
                Ok(v) => v,
                Err(e) => {
                    proof { assert(false); }
                    return Err(e);
                },
            };
            items.push(item);
            k += 1;
        }
        Ok(items)
    }

    /// Reads `len` masks, little-endian, and calls `f` with each, in order.
    pub fn foreach_read_mask<F: FnMut(u64)>(&mut self, len: usize, f: F) -> (r: Result<(), AccessError>)
        requires
            old(self).wf(),
            forall|m: u64| #[trigger] call_requires(f, (m,)),
        ensures
            final(self).wf(),
            final(self).data() == old(self).data(),
            match r {
                Ok(_) => {
                    &&& old(self).spec_pos() + 8 * len <= old(self).data().len()
                    &&& forall|k: int| 0 <= k < len ==> #[trigger] call_ensures(f,
                        (parse_masks(old(self).data(), old(self).spec_pos(), len as int)[k],), ())
                    &&& final(self).spec_pos() == old(self).spec_pos() + 8 * len
                },
                Err(e) => e == AccessError::IOError && old(self).spec_pos() + 8 * len > old(self).data().len()
                    && final(self).spec_pos() == old(self).spec_pos(),
            },
    {
        let ghost start = self.pos as int;
        let masks = self.read_masks(len)?;
        let mut g = f;
        let mut k: usize = 0;
        while k < masks.len()
            invariant
                k <= masks@.len(),
                masks@.len() == len,
                g == f,
                forall|m: u64| #[trigger] call_requires(f, (m,)),
                forall|q: int| 0 <= q < k ==> #[trigger] call_ensures(f, (masks@[q],), ()),
            decreases masks@.len() - k,
        {
            g(masks[k]);
            k += 1;
        }
        Ok(())
    }
}

/// `cnt` masks read little-endian from `b` at `off`.
pub open spec fn parse_masks(b: Seq<u8>, off: int, cnt: int) -> Seq<u64> {
    Seq::new(cnt as nat, |k: int| le_value(b.subrange(off + 8 * k, off + 8 * k + 8)) as u64)
}

/// Level-1 masks under the raised level-0 bits below `k`, in increasing order.
pub open spec fn level1_seq(s: &BitSet, k: int) -> Seq<u64>
    decreases k,
{
    if k <= 0 {
        Seq::empty()
    } else if bit_of(s.spec_level0_mask(), k - 1) {
        level1_seq(s, k - 1).push(s.spec_level1_mask(k - 1))
    } else {
        level1_seq(s, k - 1)
    }
}

/// Data masks under the raised bits below `j` of the level-1 mask of `a0`.
pub open spec fn data_row(s: &BitSet, a0: int, j: int) -> Seq<u64>
    decreases j,
{
    if j <= 0 {
        Seq::empty()
    } else if bit_of(s.spec_level1_mask(a0), j - 1) {
        data_row(s, a0, j - 1).push(s.spec_data_mask(a0, j - 1))
    } else {
        data_row(s, a0, j - 1)
    }
}

/// Data masks of the blocks under the raised level-0 bits below `k`, in
/// increasing order of their block.
pub open spec fn data_seq(s: &BitSet, k: int) -> Seq<u64>
    decreases k,
{
    if k <= 0 {
        Seq::empty()
    } else if bit_of(s.spec_level0_mask(), k - 1) {
        data_seq(s, k - 1) + data_row(s, k - 1, 64)
    } else {
        data_seq(s, k - 1)
    }
}

/// Masks one after the other, each little-endian.
pub open spec fn masks_bytes(m: Seq<u64>) -> Seq<u8>
    decreases m.len(),
{
    if m.len() == 0 {
        Seq::empty()
    } else {
        masks_bytes(m.drop_last()) + le_bytes(m.last() as nat, 8)
    }
}

/// Raised bits of all the masks.
pub open spec fn total_bits(m: Seq<u64>) -> nat
    decreases m.len(),
{
    if m.len() == 0 {
        0
    } else {
        total_bits(m.drop_last()) + bit_count(m.last(), 64)
    }
}

/// For each mask, the raised bits of the masks before it, as 2 bytes.
pub open spec fn counts_bytes(m: Seq<u64>) -> Seq<u8>
    decreases m.len(),
{
    if m.len() == 0 {
        Seq::empty()
    } else {
        counts_bytes(m.drop_last()) + le_bytes(total_bits(m.drop_last()), 2)
    }
}

/// The serialized form of `s`: header (format version, count of level-1
/// masks, count of data masks), level-0 mask, level-0 bit counts (one 64-bit
/// word, counted from 0), level-1 masks, their running bit counts, padding to
/// 8 bytes, data masks.
pub open spec fn serialized(s: &BitSet) -> Seq<u8> {
    let l1 = level1_seq(s, 64);
    let d = data_seq(s, 64);
    le_bytes(SERIALIZATION_FORMAT_VER as nat, 2) + le_bytes(l1.len(), 2) + le_bytes(d.len(), 4)
        + le_bytes(s.spec_level0_mask() as nat, 8) + zeros(8)
        + masks_bytes(l1) + counts_bytes(l1)
        + zeros(padding((24 + 10 * l1.len()) as nat, 8))
        + masks_bytes(d)
}

/// The serialized form made of a level-0 mask `l0`, the level-1 masks `l1`
/// and the data masks `d`: the same layout as [serialized].
pub open spec fn serialized_parts(l0: u64, l1: Seq<u64>, d: Seq<u64>) -> Seq<u8> {
    le_bytes(SERIALIZATION_FORMAT_VER as nat, 2) + le_bytes(l1.len(), 2) + le_bytes(d.len(), 4)
        + le_bytes(l0 as nat, 8) + zeros(8)
        + masks_bytes(l1) + counts_bytes(l1)
        + zeros(padding((24 + 10 * l1.len()) as nat, 8))
        + masks_bytes(d)
}

/// Running bit counts, written as 2-byte items, are the counts part.
pub proof fn lemma_counts_items(starts: Seq<u16>, m: Seq<u64>)
    requires
        starts.len() == m.len(),
        forall|i: int| 0 <= i < m.len() ==> #[trigger] starts[i] as nat == total_bits(m.take(i)),
    ensures
        items_bytes(starts) == counts_bytes(m),
    decreases m.len(),
{
    if m.len() > 0 {
        let n = m.len() - 1;
        assert forall|i: int| 0 <= i < m.drop_last().len() implies #[trigger] starts.drop_last()[i] as nat
            == total_bits(m.drop_last().take(i)) by {
            assert(m.drop_last().take(i) =~= m.take(i));
            assert(starts.drop_last()[i] == starts[i]);
        }
        lemma_counts_items(starts.drop_last(), m.drop_last());
        assert(m.take(n) =~= m.drop_last());
        assert(starts[n] as nat == total_bits(m.take(n)));
    }
}

/// Lengths of the serialized parts.
pub proof fn lemma_lengths(m: Seq<u64>)
    ensures
        masks_bytes(m).len() == 8 * m.len(),
        counts_bytes(m).len() == 2 * m.len(),
        total_bits(m) <= 64 * m.len(),
    decreases m.len(),
{
    if m.len() > 0 {
        lemma_lengths(m.drop_last());
        lemma_le_bytes(m.last() as nat, 8);
        lemma_le_bytes(total_bits(m.drop_last()), 2);
        crate::bit_utils::lemma_bit_count_bound(m.last(), 64);
    }
}

/// `k` level-1 masks for the raised bits below `k`, each at most 64 data masks.
pub proof fn lemma_seq_lengths(s: &BitSet, k: int)
    requires
        0 <= k <= 64,
    ensures
        level1_seq(s, k).len() == bit_count(s.spec_level0_mask(), k),
        level1_seq(s, k).len() <= k,
        data_seq(s, k).len() <= 64 * k,
    decreases k,
{
    if k > 0 {
        lemma_seq_lengths(s, k - 1);
        lemma_row_length(s, k - 1, 64);
    }
}

/// The row of `a0` has one data mask per raised bit below `j` of its level-1 mask.
pub proof fn lemma_row_length(s: &BitSet, a0: int, j: int)
    requires
        0 <= j <= 64,
    ensures
        data_row(s, a0, j).len() == bit_count(s.spec_level1_mask(a0), j),
        data_row(s, a0, j).len() <= j,
    decreases j,
{
    if j > 0 {
        lemma_row_length(s, a0, j - 1);
    }
}

impl BitSet {
    /// Serialize the bitset to its binary format (see [serialized]).
    pub fn serialize(&self) -> (r: Vec<u8>)
        requires
            self.wf(),
        ensures
            r@ == serialized(self),
    {
        let ghost l1s = level1_seq(self, 64);
        let ghost ds = data_seq(self, 64);
        let level0_mask = LevelMasks::level0_mask(self);
        proof {
            lemma_seq_lengths(self, 64);
            lemma_lengths(l1s);
            lemma_pow256_values();
        }
        let lvl1_len = count_ones(level0_mask);

        // Count the data blocks.
        let mut data_len: usize = 0;
        let mut a0: usize = 0;
        while a0 < 64
            invariant
                self.wf(),
                level0_mask == self.spec_level0_mask(),
                a0 <= 64,
                data_len == data_seq(self, a0 as int).len(),
                data_len <= 64 * a0,
            decreases 64 - a0,
        {
            proof { lemma_row_length(self, a0 as int, 64); }
            if get_bit_unchecked(level0_mask, a0) {
                let level1_mask = LevelMasks::level1_mask(self, a0);
                data_len += count_ones(level1_mask);
            }
            a0 += 1;
        }

        let mut w = Writer::new();
        // version|lvl1_len|data_len||
        w.write_primitive::<u16>(SERIALIZATION_FORMAT_VER);
        w.write_primitive::<u16>(lvl1_len as u16);
        w.write_primitive::<u32>(data_len as u32);
        proof {
            lemma_le_bytes(SERIALIZATION_FORMAT_VER as nat, 2);
            lemma_le_bytes(lvl1_len as nat, 2);
            lemma_le_bytes(data_len as nat, 4);
            lemma_le_bytes(level0_mask as nat, 8);
            assert(w.bytes().len() == 8);
        }
        w.write_padding_for::<u64>();
        // lvl0_mask
        w.write_mask(level0_mask);
        w.write_padding_for::<u8>();
        // [lvl0_bitcount]: a single 64-bit word, whose count starts at 0
        let lvl0_bitcounts: [u8; 8] = [0u8; 8];
        let ghost before_counts = w.bytes();
        w.write_primitives(&lvl0_bitcounts);
        proof {
            assert(padding(8, 8) == 0);
            assert(padding(16, 1) == 0);
            assert(before_counts.len() == 16);
            lemma_zero_items(lvl0_bitcounts@);
            assert(w.bytes() =~= before_counts + zeros(8));
        }
        let ghost header = w.bytes();
        proof {
            assert(header =~= le_bytes(SERIALIZATION_FORMAT_VER as nat, 2) + le_bytes(l1s.len(), 2) + le_bytes(ds.len(), 4)
                + le_bytes(self.spec_level0_mask() as nat, 8) + zeros(8));
            assert(header.len() == 24);
            assert(padding(24, 8) == 0);
        }
        w.write_padding_for::<u64>();
        proof { assert(w.bytes() =~= header); }

        // [lvl1_mask]
        let mut buf_w = BufferedWriter::<u64>::new(w);
        let mut a0: usize = 0;
        while a0 < 64
            invariant
                self.wf(),
                level0_mask == self.spec_level0_mask(),
                a0 <= 64,
                buf_w.wf(),
                buf_w.bytes() == header + masks_bytes(level1_seq(self, a0 as int)),
            decreases 64 - a0,
        {
            let ghost prev = level1_seq(self, a0 as int);
            if get_bit_unchecked(level0_mask, a0) {
                let level1_mask = LevelMasks::level1_mask(self, a0);
                buf_w.write_mask(level1_mask);
                proof {
                    let next = level1_seq(self, a0 + 1);
                    assert(next.drop_last() =~= prev);
                    assert(buf_w.bytes() =~= header + masks_bytes(next));
                }
            }
            a0 += 1;
        }
        let mut w = buf_w.close();
        let ghost with_masks = w.bytes();
        proof {
            assert(with_masks.len() == 24 + 8 * l1s.len());
            assert(padding((24 + 8 * l1s.len()) as nat, 2) == 0);
        }
        w.write_padding_for::<u16>();
        proof { assert(w.bytes() =~= with_masks); }

        // [lvl1_bitcount]
        let mut buf_w = BufferedWriter::<u16>::new(w);
        let mut bits_count: u16 = 0;
        let mut a0: usize = 0;
        while a0 < 64
            invariant
                self.wf(),
                level0_mask == self.spec_level0_mask(),
                a0 <= 64,
                buf_w.wf(),
                buf_w.bytes() == with_masks + counts_bytes(level1_seq(self, a0 as int)),
                bits_count == total_bits(level1_seq(self, a0 as int)),
                level1_seq(self, a0 as int).len() <= a0,
            decreases 64 - a0,
        {
            let ghost prev = level1_seq(self, a0 as int);
            proof {
                lemma_lengths(prev);
                lemma_seq_lengths(self, a0 as int);
            }
            if get_bit_unchecked(level0_mask, a0) {
                let level1_mask = LevelMasks::level1_mask(self, a0);
                buf_w.write_primitive(bits_count);
                let c = count_ones(level1_mask);
                proof {
                    crate::bit_utils::lemma_bit_count_bound(level1_mask, 64);
                    assert(bits_count + c <= 64 * (a0 + 1)) by (nonlinear_arith)
                        requires bits_count <= 64 * prev.len(), prev.len() <= a0, c <= 64;
                }
                bits_count = bits_count + c as u16;
                proof {
                    let next = level1_seq(self, a0 + 1);
                    assert(next.drop_last() =~= prev);
                    assert(buf_w.bytes() =~= with_masks + counts_bytes(next));
                }
            }
            proof { lemma_seq_lengths(self, a0 + 1); }
            a0 += 1;
        }
        let mut w = buf_w.close();
        let ghost with_counts = w.bytes();
        w.write_padding_for::<u64>();
        let ghost data_start = w.bytes();
        proof {
            lemma_lengths(l1s);
            assert(with_counts.len() == 24 + 10 * l1s.len());
        }

        // [data]
        let mut buf_w = BufferedWriter::<u64>::new(w);
        let mut a0: usize = 0;
        while a0 < 64
            invariant
                self.wf(),
                level0_mask == self.spec_level0_mask(),
                a0 <= 64,
                buf_w.wf(),
                buf_w.bytes() == data_start + masks_bytes(data_seq(self, a0 as int)),
            decreases 64 - a0,
        {
            let ghost prev = data_seq(self, a0 as int);
            if get_bit_unchecked(level0_mask, a0) {
                let level1_mask = LevelMasks::level1_mask(self, a0);
                let mut a1: usize = 0;
                while a1 < 64
                    invariant
                        self.wf(),
                        a0 < 64,
                        level1_mask == self.spec_level1_mask(a0 as int),
                        a1 <= 64,
                        buf_w.wf(),
                        buf_w.bytes() == data_start + masks_bytes(prev + data_row(self, a0 as int, a1 as int)),
                    decreases 64 - a1,
                {
                    let ghost row = data_row(self, a0 as int, a1 as int);
                    if get_bit_unchecked(level1_mask, a1) {
                        let data_mask = LevelMasks::data_mask(self, a0, a1);
                        buf_w.write_mask(data_mask);
                        proof {
                            let next = data_row(self, a0 as int, a1 + 1);
                            assert((prev + next).drop_last() =~= prev + row);
                            assert(buf_w.bytes() =~= data_start + masks_bytes(prev + next));
                        }
                    }
                    a1 += 1;
                }
            } else {
                proof { assert(data_seq(self, a0 + 1) == prev); }
            }
            a0 += 1;
        }
        let w = buf_w.close();
        proof {
            assert(w.bytes() =~= serialized(self));
        }
        w.into_bytes()
    }
}

/// Offset of the data masks after `n` level-1 masks.
pub open spec fn data_offset(n: nat) -> nat {
    24 + 10 * n + padding(24 + 10 * n, 8)
}

/// The data mask that the level-0 mask `l0`, the level-1 masks `l1s` (one per
/// raised bit of `l0`, in order) and the data masks `ds` (one per raised bit
/// of those, in order) put on the path `(a0, a1)`.
pub open spec fn decoded_mask(l0: u64, l1s: Seq<u64>, ds: Seq<u64>, a0: int, a1: int) -> u64 {
    let r0 = bit_count(l0, a0) as int;
    if bit_of(l0, a0) && bit_of(l1s[r0], a1) {
        ds[(total_bits(l1s.take(r0)) + bit_count(l1s[r0], a1)) as int]
    } else {
        0
    }
}

/// The indices that the decoded masks hold.
pub open spec fn decoded(l0: u64, l1s: Seq<u64>, ds: Seq<u64>) -> Set<int> {
    Set::new(|i: int| 0 <= i < MAX_CAPACITY && bit_of(decoded_mask(l0, l1s, ds, idx0(i), idx1(i)), idx2(i)))
}

/// What reading the bytes `b` gives: the indices of the serialized bitset, or
/// the first failure met on the way.
pub open spec fn spec_deserialize(b: Seq<u8>) -> Result<Set<int>, AccessError> {
    if b.len() < 2 {
        Err(AccessError::IOError)
    } else if le_value(b.subrange(0, 2)) != SERIALIZATION_FORMAT_VER {
        Err(AccessError::FormatMismatch(le_value(b.subrange(0, 2)) as u16))
    } else if b.len() < 24 {
        Err(AccessError::IOError)
    } else {
        let n = le_value(b.subrange(2, 4));
        let d = le_value(b.subrange(4, 8));
        let l0 = le_value(b.subrange(8, 16)) as u64;
        if b.len() < data_offset(n) + 8 * d {
            Err(AccessError::IOError)
        } else {
            let l1s = parse_masks(b, 24, n as int);
            let ds = parse_masks(b, data_offset(n) as int, d as int);
            if bit_count(l0, 64) != n || total_bits(l1s) != d {
                Err(AccessError::InvalidData)
            } else {
                Ok(decoded(l0, l1s, ds))
            }
        }
    }
}

/// Running bit counts grow by the bits of each next mask.
pub proof fn lemma_total_bits_take(m: Seq<u64>, r: int)
    requires
        0 <= r < m.len(),
    ensures
        total_bits(m.take(r + 1)) == total_bits(m.take(r)) + bit_count(m[r], 64),
{
    assert(m.take(r + 1).drop_last() =~= m.take(r));
}

/// Running bit counts are at most the total.
pub proof fn lemma_total_bits_prefix(m: Seq<u64>, r: int)
    requires
        0 <= r <= m.len(),
    ensures
        total_bits(m.take(r)) <= total_bits(m),
    decreases m.len() - r,
{
    if r < m.len() {
        lemma_total_bits_take(m, r);
        lemma_total_bits_prefix(m, r + 1);
    } else {
        assert(m.take(r) =~= m);
    }
}

impl BitSet {
    /// Deserialize a [serialized](Self::serialize) bitset.
    pub fn deserialize(data: &[u8]) -> (r: Result<BitSet, AccessError>)
        ensures
            match spec_deserialize(data@) {
                Ok(set) => r matches Ok(b) && b.wf() && b@ == set
                    && b.data_blocks_used() == 1 + data_block_keys(set).len()
                    && b.hi_blocks_used() == 1 + level1_block_keys(set).len(),
                Err(e) => r == Err::<BitSet, AccessError>(e),
            },
    {
        let ghost b = data@;
        let mut r = Reader::new(data);
        proof { lemma_pow256_values(); }

        // version|lvl1_len|data_len||
        match r.read_version() {
            Ok(_) => {},
            Err(e) => { return Err(e); },
        }
        let lvl1_len: u16 = match r.read_primitive() {
            Ok(v) => v,
            Err(e) => { return Err(e); },
        };
        let data_len: u32 = match r.read_primitive() {
            Ok(v) => v,
            Err(e) => { return Err(e); },
        };
        proof { assert(padding(8, 8) == 0); }
        match r.read_padding_for::<u64>() {
            Ok(_) => {},
            Err(e) => { return Err(e); },
        }
        // lvl0_mask
        let level0_mask = match r.read_mask() {
            Ok(v) => v,
            Err(e) => { return Err(e); },
        };
        proof { assert(padding(16, 1) == 0); }
        match r.read_padding_for::<u8>() {
            Ok(_) => {},
            Err(e) => { return Err(e); },
        }
        // [lvl0_bitcount]
        match r.skip_n::<u8>(8) {
            Ok(_) => {},
            Err(e) => { return Err(e); },
        }
        let ghost n = lvl1_len as nat;
        let ghost d = data_len as nat;
        proof {
            assert(padding(24, 8) == 0);
            assert(n == le_value(b.subrange(2, 4)));
            assert(d == le_value(b.subrange(4, 8)));
        }
        match r.read_padding_for::<u64>() {
            Ok(_) => {},
            Err(e) => { return Err(e); },
        }
        // [lvl1_mask]
        let level1_masks = match r.read_masks(lvl1_len as usize) {
            Ok(v) => v,
            Err(e) => {
                proof { assert(data_offset(n) + 8 * d >= 24 + 8 * n); }
                return Err(e);
            },
        };
        proof { assert(padding((24 + 8 * n) as nat, 2) == 0); }
        match r.read_padding_for::<u16>() {
            Ok(_) => {},
            Err(e) => { return Err(e); },
        }
        // [lvl1_bitcount]
        match r.skip_n::<u16>(lvl1_len as usize) {
            Ok(_) => {},
            Err(e) => {
                proof { assert(data_offset(n) + 8 * d >= 24 + 10 * n); }
                return Err(e);
            },
        }
        match r.read_padding_for::<u64>() {
            Ok(_) => {},
            Err(e) => { return Err(e); },
        }
        // [data]
        let data_masks = match r.read_masks(data_len as usize) {
            Ok(v) => v,
            Err(e) => { return Err(e); },
        };
        let ghost l1s = level1_masks@;
        let ghost ds = data_masks@;
        proof {
            assert(l1s == parse_masks(b, 24, n as int));
            assert(ds == parse_masks(b, data_offset(n) as int, d as int));
        }

        // The counts must match the masks.
        if count_ones(level0_mask) != lvl1_len as usize {
            return Err(AccessError::InvalidData);
        }
        let mut total: usize = 0;
        let mut k: usize = 0;
        while k < level1_masks.len()
            invariant
                k <= l1s.len(),
                l1s == level1_masks@,
                l1s.len() <= 65535,
                total == total_bits(l1s.take(k as int)),
                total <= 64 * k,
            decreases l1s.len() - k,
        {
            proof {
                lemma_total_bits_take(l1s, k as int);
                crate::bit_utils::lemma_bit_count_bound(l1s[k as int], 64);
            }
            total = total + count_ones(level1_masks[k]);
            k += 1;
        }
        proof { assert(l1s.take(l1s.len() as int) =~= l1s); }
        if total != data_len as usize {
            return Err(AccessError::InvalidData);
        }

        // Build the bitset, mask by mask, in the order they were written.
        let mut bitset = BitSet::new();
        proof {
            crate::bit_utils::lemma_bit_count_bound(level0_mask, 64);
            assert(ds.len() <= 4096);
            assert forall|x0: int, x1: int| 0 <= x0 < 64 && 0 <= x1 < 64 implies #[trigger] bitset.spec_data_mask(x0, x1) == 0 by {
                let m = bitset.spec_data_mask(x0, x1);
                if m != 0 {
                    let j = crate::bit_utils::lemma_nonzero_has_bit(m);
                    crate::bit_utils::lemma_index_compose(x0, x1, j as int);
                    assert(bitset@.contains(x0 * 4096 + x1 * 64 + j));
                }
            }
        }
        let mut r0: usize = 0;
        let mut t: usize = 0;
        let mut a0: usize = 0;
        while a0 < 64
            invariant
                bitset.wf(),
                a0 <= 64,
                b.len() >= 24,
                level0_mask as nat == le_value(b.subrange(8, 16)),
                ds.len() <= 4096,
                l1s.len() <= 64,
                l1s == level1_masks@,
                ds == data_masks@,
                l1s.len() == bit_count(level0_mask, 64),
                ds.len() == total_bits(l1s),
                r0 == bit_count(level0_mask, a0 as int),
                t == total_bits(l1s.take(r0 as int)),
                forall|x0: int, x1: int| 0 <= x0 < 64 && 0 <= x1 < 64 ==> #[trigger] bitset.spec_data_mask(x0, x1)
                    == if x0 < a0 { decoded_mask(level0_mask, l1s, ds, x0, x1) } else { 0 },
            decreases 64 - a0,
        {
            proof {
                crate::bit_utils::lemma_bit_count_mono(level0_mask, a0 as int, 64);
                crate::bit_utils::lemma_bit_count_mono(level0_mask, a0 as int, a0 + 1);
            }
            if get_bit_unchecked(level0_mask, a0) {
                let level1_mask = level1_masks[r0];
                let ghost t0 = t;
                proof {
                    lemma_total_bits_take(l1s, r0 as int);
                    lemma_total_bits_prefix(l1s, r0 + 1);
                }
                let mut a1: usize = 0;
                while a1 < 64
                    invariant
                        bitset.wf(),
                        a0 < 64,
                        a1 <= 64,
                        bit_of(level0_mask, a0 as int),
                        l1s == level1_masks@,
                        ds == data_masks@,
                        ds.len() == total_bits(l1s),
                        ds.len() <= 4096,
                        l1s.len() <= 64,
                        r0 == bit_count(level0_mask, a0 as int),
                        r0 < l1s.len(),
                        level1_mask == l1s[r0 as int],
                        t0 == total_bits(l1s.take(r0 as int)),
                        t0 + bit_count(level1_mask, 64) <= ds.len(),
                        t == t0 + bit_count(level1_mask, a1 as int),
                        forall|x0: int, x1: int| 0 <= x0 < 64 && 0 <= x1 < 64 ==> #[trigger] bitset.spec_data_mask(x0, x1)
                            == if x0 < a0 || (x0 == a0 && x1 < a1) { decoded_mask(level0_mask, l1s, ds, x0, x1) } else { 0 },
                    decreases 64 - a1,
                {
                    proof {
                        crate::bit_utils::lemma_bit_count_mono(level1_mask, a1 as int, 64);
                        crate::bit_utils::lemma_bit_count_mono(level1_mask, a1 as int, a1 + 1);
                    }
                    let ghost before = bitset;
                    if get_bit_unchecked(level1_mask, a1) {
                        let data_mask = data_masks[t];
                        t += 1;
                        if data_mask != 0 {
                            bitset.set_data_mask(a0, a1, data_mask);
                        }
                        proof {
                            assert(decoded_mask(level0_mask, l1s, ds, a0 as int, a1 as int) == data_mask);
                        }
                    }
                    proof {
                        lemma_bit_zero();
                        assert forall|x0: int, x1: int| 0 <= x0 < 64 && 0 <= x1 < 64 implies #[trigger] bitset.spec_data_mask(x0, x1)
                            == if x0 < a0 || (x0 == a0 && x1 < a1 + 1) { decoded_mask(level0_mask, l1s, ds, x0, x1) } else { 0 } by {
                            assert(before.spec_data_mask(x0, x1) == if x0 < a0 || (x0 == a0 && x1 < a1) {
                                decoded_mask(level0_mask, l1s, ds, x0, x1) } else { 0 });
                        }
                    }
                    a1 += 1;
                }
                r0 += 1;
                proof {
                    assert(t == total_bits(l1s.take(r0 as int)));
                }
            }
            proof {
                lemma_bit_zero();
                assert forall|x0: int, x1: int| 0 <= x0 < 64 && 0 <= x1 < 64 implies #[trigger] bitset.spec_data_mask(x0, x1)
                    == if x0 < a0 + 1 { decoded_mask(level0_mask, l1s, ds, x0, x1) } else { 0 } by {
                }
            }
            a0 += 1;
        }
        proof {
            assert forall|i: int| #[trigger] bitset@.contains(i) == decoded(level0_mask, l1s, ds).contains(i) by {
                if 0 <= i < MAX_CAPACITY {
                    crate::bit_utils::lemma_index_parts(i);
                }
            }
            assert(bitset@ =~= decoded(level0_mask, l1s, ds));
            crate::bitset::lemma_blocks_in_use(&bitset);
        }
        Ok(bitset)
    }
}

/// Mask `k` of `m` lies at bytes `8k .. 8k + 8` of their serialized form.
pub proof fn lemma_masks_bytes_at(m: Seq<u64>, k: int)
    requires
        0 <= k < m.len(),
    ensures
        masks_bytes(m).subrange(8 * k, 8 * k + 8) == le_bytes(m[k] as nat, 8),
    decreases m.len(),
{
    lemma_lengths(m.drop_last());
    lemma_le_bytes(m.last() as nat, 8);
    if k == m.len() - 1 {
        assert(masks_bytes(m).subrange(8 * k, 8 * k + 8) =~= le_bytes(m[k] as nat, 8));
    } else {
        lemma_masks_bytes_at(m.drop_last(), k);
        assert(masks_bytes(m).subrange(8 * k, 8 * k + 8) =~= masks_bytes(m.drop_last()).subrange(8 * k, 8 * k + 8));
    }
}

/// Masks read back from their serialized form are the masks.
pub proof fn lemma_parse_masks(b: Seq<u8>, off: int, m: Seq<u64>)
    requires
        0 <= off,
        off + 8 * m.len() <= b.len(),
        b.subrange(off, off + 8 * m.len()) == masks_bytes(m),
    ensures
        parse_masks(b, off, m.len() as int) == m,
{
    lemma_lengths(m);
    assert forall|k: int| 0 <= k < m.len() implies #[trigger] parse_masks(b, off, m.len() as int)[k] == m[k] by {
        lemma_masks_bytes_at(m, k);
        assert(b.subrange(off + 8 * k, off + 8 * k + 8) =~= masks_bytes(m).subrange(8 * k, 8 * k + 8));
        lemma_le_bytes(m[k] as nat, 8);
        lemma_pow256_values();
    }
    assert(parse_masks(b, off, m.len() as int) =~= m);
}

/// The level-1 masks below `k` are the first ones of those below `k2`.
pub proof fn lemma_level1_prefix(s: &BitSet, k: int, k2: int)
    requires
        0 <= k <= k2 <= 64,
    ensures
        level1_seq(s, k2).take(level1_seq(s, k).len() as int) == level1_seq(s, k),
        level1_seq(s, k).len() <= level1_seq(s, k2).len(),
    decreases k2 - k,
{
    if k < k2 {
        lemma_level1_prefix(s, k, k2 - 1);
        let a = level1_seq(s, k);
        let p = level1_seq(s, k2 - 1);
        assert(level1_seq(s, k2).take(a.len() as int) =~= p.take(a.len() as int));
    } else {
        assert(level1_seq(s, k).take(level1_seq(s, k).len() as int) =~= level1_seq(s, k));
    }
}

/// The level-1 mask of a raised level-0 bit `a0` is the one at its rank.
pub proof fn lemma_level1_at(s: &BitSet, k: int, a0: int)
    requires
        0 <= a0 < k <= 64,
        bit_of(s.spec_level0_mask(), a0),
    ensures
        level1_seq(s, k)[bit_count(s.spec_level0_mask(), a0) as int] == s.spec_level1_mask(a0),
    decreases k,
{
    lemma_seq_lengths(s, a0);
    if a0 < k - 1 {
        lemma_level1_at(s, k - 1, a0);
        lemma_seq_lengths(s, k - 1);
        crate::bit_utils::lemma_bit_count_mono(s.spec_level0_mask(), a0, k - 1);
    }
}

/// The raised bits of the level-1 masks below `k` count the data masks below `k`.
pub proof fn lemma_total_bits_level1(s: &BitSet, k: int)
    requires
        0 <= k <= 64,
    ensures
        total_bits(level1_seq(s, k)) == data_seq(s, k).len(),
    decreases k,
{
    if k > 0 {
        lemma_total_bits_level1(s, k - 1);
        lemma_row_length(s, k - 1, 64);
        if bit_of(s.spec_level0_mask(), k - 1) {
            assert(level1_seq(s, k).drop_last() =~= level1_seq(s, k - 1));
        }
    }
}

/// The data mask of a raised level-1 bit `a1` is the one at its rank in the row.
pub proof fn lemma_row_at(s: &BitSet, a0: int, j: int, a1: int)
    requires
        0 <= a1 < j <= 64,
        bit_of(s.spec_level1_mask(a0), a1),
    ensures
        data_row(s, a0, j)[bit_count(s.spec_level1_mask(a0), a1) as int] == s.spec_data_mask(a0, a1),
    decreases j,
{
    lemma_row_length(s, a0, a1);
    if a1 < j - 1 {
        lemma_row_at(s, a0, j - 1, a1);
        lemma_row_length(s, a0, j - 1);
        crate::bit_utils::lemma_bit_count_mono(s.spec_level1_mask(a0), a1, j - 1);
    }
}

/// Data masks below `k` only grow with `k`.
pub proof fn lemma_data_seq_mono(s: &BitSet, k: int, k2: int)
    requires
        0 <= k <= k2 <= 64,
    ensures
        data_seq(s, k).len() <= data_seq(s, k2).len(),
        data_seq(s, k2).take(data_seq(s, k).len() as int) == data_seq(s, k),
    decreases k2 - k,
{
    if k < k2 {
        lemma_data_seq_mono(s, k, k2 - 1);
        assert(data_seq(s, k2).take(data_seq(s, k).len() as int) =~= data_seq(s, k2 - 1).take(data_seq(s, k).len() as int));
    } else {
        assert(data_seq(s, k).take(data_seq(s, k).len() as int) =~= data_seq(s, k));
    }
}

/// The data mask on the path `(a0, a1)` of raised bits is at its place among the data masks.
pub proof fn lemma_data_at(s: &BitSet, a0: int, a1: int)
    requires
        0 <= a0 < 64,
        0 <= a1 < 64,
        bit_of(s.spec_level0_mask(), a0),
        bit_of(s.spec_level1_mask(a0), a1),
    ensures
        data_seq(s, 64)[(data_seq(s, a0).len() + bit_count(s.spec_level1_mask(a0), a1)) as int] == s.spec_data_mask(a0, a1),
{
    let pre = data_seq(s, a0);
    let row = data_row(s, a0, 64);
    lemma_row_at(s, a0, 64, a1);
    lemma_row_length(s, a0, 64);
    crate::bit_utils::lemma_bit_count_mono(s.spec_level1_mask(a0), a1, 64);
    assert(data_seq(s, a0 + 1) == pre + row);
    lemma_data_seq_mono(s, a0 + 1, 64);
    let idx = (pre.len() + bit_count(s.spec_level1_mask(a0), a1)) as int;
    assert(data_seq(s, 64).take(data_seq(s, a0 + 1).len() as int)[idx] == data_seq(s, 64)[idx]);
}

/// Words with the same bits are equal.
proof fn lemma_same_bits_equal(x: u64, y: u64)
    requires
        forall|j: u64| j < 64 ==> #[trigger] bit_at(x, j) == bit_at(y, j),
    ensures
        x == y,
{
    crate::bit_utils::lemma_bit_ops(x, y);
    crate::bit_utils::lemma_no_bit_zero(x ^ y);
    assert(x ^ y == 0u64 ==> x == y) by (bit_vector);
}

/// Masks that agree give the same rows, level-1 sequences and data sequences.
proof fn lemma_seqs_agree(a: &BitSet, b: &BitSet, k: int)
    requires
        0 <= k <= 64,
        a.spec_level0_mask() == b.spec_level0_mask(),
        forall|x0: int| 0 <= x0 < 64 ==> #[trigger] a.spec_level1_mask(x0) == b.spec_level1_mask(x0),
        forall|x0: int, x1: int| 0 <= x0 < 64 && 0 <= x1 < 64 ==>
            #[trigger] a.spec_data_mask(x0, x1) == b.spec_data_mask(x0, x1),
    ensures
        level1_seq(a, k) == level1_seq(b, k),
        data_seq(a, k) == data_seq(b, k),
    decreases k,
{
    if k > 0 {
        lemma_seqs_agree(a, b, k - 1);
        lemma_rows_agree(a, b, k - 1, 64);
    }
}

proof fn lemma_rows_agree(a: &BitSet, b: &BitSet, a0: int, j: int)
    requires
        0 <= a0 < 64,
        0 <= j <= 64,
        a.spec_level1_mask(a0) == b.spec_level1_mask(a0),
        forall|x0: int, x1: int| 0 <= x0 < 64 && 0 <= x1 < 64 ==>
            #[trigger] a.spec_data_mask(x0, x1) == b.spec_data_mask(x0, x1),
    ensures
        data_row(a, a0, j) == data_row(b, a0, j),
    decreases j,
{
    if j > 0 {
        lemma_rows_agree(a, b, a0, j - 1);
    }
}

/// The binary form is canonical: bitsets with the same indices serialize
/// to the same bytes, whatever blocks they allocated on the way.
pub proof fn lemma_serialize_canonical(a: &BitSet, b: &BitSet)
    requires
        a.wf(),
        b.wf(),
        a@ == b@,
    ensures
        serialized(a) == serialized(b),
{
    assert forall|x0: int, x1: int| 0 <= x0 < 64 && 0 <= x1 < 64 implies
        #[trigger] a.spec_data_mask(x0, x1) == b.spec_data_mask(x0, x1) by {
        if a.spec_data_mask(x0, x1) != b.spec_data_mask(x0, x1) {
            crate::bitset_interface::lemma_contents_differ(a, b, x0, x1);
        }
    }
    a.lemma_hierarchy();
    b.lemma_hierarchy();
    lemma_bit_zero();
    // A level-0 bit is raised exactly over a non-empty data block.
    assert forall|x0: int| 0 <= x0 < 64 implies #[trigger] bit_of(a.spec_level0_mask(), x0) == bit_of(b.spec_level0_mask(), x0) by {
        if bit_of(a.spec_level0_mask(), x0) {
            assert(a.spec_level1_mask(x0) != 0);
            let j = crate::bit_utils::lemma_nonzero_has_bit(a.spec_level1_mask(x0));
            assert(bit_of(a.spec_level1_mask(x0), j as int));
            assert(a.spec_data_mask(x0, j as int) != 0);
            assert(b.spec_data_mask(x0, j as int) != 0);
            assert(bit_of(b.spec_level0_mask(), x0));
        }
        if bit_of(b.spec_level0_mask(), x0) {
            assert(b.spec_level1_mask(x0) != 0);
            let j = crate::bit_utils::lemma_nonzero_has_bit(b.spec_level1_mask(x0));
            assert(bit_of(b.spec_level1_mask(x0), j as int));
            assert(b.spec_data_mask(x0, j as int) != 0);
            assert(a.spec_data_mask(x0, j as int) != 0);
            assert(bit_of(a.spec_level0_mask(), x0));
        }
    }
    assert forall|j: u64| j < 64 implies #[trigger] bit_at(a.spec_level0_mask(), j) == bit_at(b.spec_level0_mask(), j) by {
        assert(bit_of(a.spec_level0_mask(), j as int) == bit_of(b.spec_level0_mask(), j as int));
    }
    lemma_same_bits_equal(a.spec_level0_mask(), b.spec_level0_mask());
    // A level-1 bit is raised exactly over a non-empty data block.
    assert forall|x0: int| 0 <= x0 < 64 implies #[trigger] a.spec_level1_mask(x0) == b.spec_level1_mask(x0) by {
        if bit_of(a.spec_level0_mask(), x0) {
            assert forall|j: u64| j < 64 implies #[trigger] bit_at(a.spec_level1_mask(x0), j) == bit_at(b.spec_level1_mask(x0), j) by {
                assert(bit_of(a.spec_level1_mask(x0), j as int) == (a.spec_data_mask(x0, j as int) != 0));
                assert(bit_of(b.spec_level1_mask(x0), j as int) == (b.spec_data_mask(x0, j as int) != 0));
            }
            lemma_same_bits_equal(a.spec_level1_mask(x0), b.spec_level1_mask(x0));
        }
    }
    lemma_seqs_agree(a, b, 64);
}

/// The data masks that the level-0 mask, the level-1 masks and the data masks
/// of `s`, taken in order, give are the data masks of `s`.
pub proof fn lemma_decoded_masks(s: &BitSet)
    requires
        s.wf(),
    ensures
        forall|a0: int, a1: int| 0 <= a0 < 64 && 0 <= a1 < 64 ==> #[trigger] decoded_mask(s.spec_level0_mask(),
            level1_seq(s, 64), data_seq(s, 64), a0, a1) == s.spec_data_mask(a0, a1),
{
    let l1 = level1_seq(s, 64);
    let d = data_seq(s, 64);
    let l0 = s.spec_level0_mask();
    lemma_seq_lengths(s, 64);
    lemma_total_bits_level1(s, 64);
    s.lemma_hierarchy();
    assert forall|a0: int, a1: int| 0 <= a0 < 64 && 0 <= a1 < 64 implies #[trigger] decoded_mask(l0, l1, d, a0, a1)
        == s.spec_data_mask(a0, a1) by {
        let r0 = bit_count(l0, a0) as int;
        if bit_of(l0, a0) {
            lemma_level1_at(s, 64, a0);
            if bit_of(s.spec_level1_mask(a0), a1) {
                lemma_data_at(s, a0, a1);
                lemma_seq_lengths(s, a0);
                lemma_level1_prefix(s, a0, 64);
                lemma_total_bits_level1(s, a0);
                assert(l1.take(r0) == level1_seq(s, a0));
            } else {
                assert(s.spec_data_mask(a0, a1) == 0);
            }
        } else {
            assert(s.spec_data_mask(a0, a1) == 0);
        }
    }
}

/// Reading a serialized bitset gives back its indices.
pub proof fn lemma_serialize_round_trip(s: &BitSet)
    requires
        s.wf(),
    ensures
        spec_deserialize(serialized(s)) == Ok::<Set<int>, AccessError>(s@),
{
    let l1 = level1_seq(s, 64);
    let d = data_seq(s, 64);
    let n = l1.len();
    let l0 = s.spec_level0_mask();
    let b = serialized(s);
    lemma_seq_lengths(s, 64);
    lemma_lengths(l1);
    lemma_lengths(d);
    lemma_pow256_values();
    lemma_le_bytes(SERIALIZATION_FORMAT_VER as nat, 2);
    lemma_le_bytes(n, 2);
    lemma_le_bytes(d.len(), 4);
    lemma_le_bytes(l0 as nat, 8);
    let h0 = le_bytes(SERIALIZATION_FORMAT_VER as nat, 2);
    let h1 = le_bytes(n, 2);
    let h2 = le_bytes(d.len(), 4);
    let h3 = le_bytes(l0 as nat, 8);
    let pad = zeros(padding((24 + 10 * n) as nat, 8));
    assert(b.len() == data_offset(n) + 8 * d.len());
    assert(b.subrange(0, 2) =~= h0);
    assert(b.subrange(2, 4) =~= h1);
    assert(b.subrange(4, 8) =~= h2);
    assert(b.subrange(8, 16) =~= h3);
    assert(b.subrange(24, (24 + 8 * n) as int) =~= masks_bytes(l1));
    assert(b.subrange(data_offset(n) as int, (data_offset(n) + 8 * d.len()) as int) =~= masks_bytes(d));
    lemma_parse_masks(b, 24, l1);
    lemma_parse_masks(b, data_offset(n) as int, d);
    lemma_total_bits_level1(s, 64);
    s.lemma_hierarchy();
    assert forall|i: int| #[trigger] decoded(l0, l1, d).contains(i) == s@.contains(i) by {
        if 0 <= i < MAX_CAPACITY {
            crate::bit_utils::lemma_index_parts(i);
            let a0 = idx0(i);
            let a1 = idx1(i);
            let r0 = bit_count(l0, a0) as int;
            if bit_of(l0, a0) {
                lemma_level1_at(s, 64, a0);
                if bit_of(s.spec_level1_mask(a0), a1) {
                    lemma_data_at(s, a0, a1);
                    lemma_seq_lengths(s, a0);
                    lemma_level1_prefix(s, a0, 64);
                    lemma_total_bits_level1(s, a0);
                    assert(l1.take(r0) == level1_seq(s, a0));
                    assert(decoded_mask(l0, l1, d, a0, a1) == s.spec_data_mask(a0, a1));
                } else {
                    assert(s.spec_data_mask(a0, a1) == 0);
                }
            } else {
                assert(s.spec_data_mask(a0, a1) == 0);
            }
            lemma_bit_zero();
        }
    }
    assert(decoded(l0, l1, d) =~= s@);
}

/// `256^m <= 256^n` for `m <= n`.
pub proof fn lemma_pow256_mono(m: nat, n: nat)
    requires
        m <= n,
    ensures
        pow256(m) <= pow256(n),
    decreases n,
{
    if m < n {
        lemma_pow256_mono(m, (n - 1) as nat);
        lemma_pow256_pos((n - 1) as nat);
    }
}

} // verus!

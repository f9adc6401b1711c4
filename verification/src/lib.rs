//! Hierarchical sparse bitset.
//!
//! Memory consumption does not depend on max index inserted.
//!
//! It is multi-level structure. Last level contains actual bit-data. Each
//! previous level has a bitmask, where each bit corresponds to `!is_empty` of
//! a bitblock in the next level, plus indices of the non-empty blocks of the
//! next level. Only blocks with actual data are allocated.
//!
//! Inter-bitset operations ([apply], [reduce]) produce lazy bitsets; their
//! masks are computed on demand from the operands' masks.

pub mod bit_utils;
pub mod bit_block;
pub mod primitive;
pub mod bit_queue;
pub mod data_block;
pub mod block;
pub mod level;
pub mod bitset;
pub mod bitset_interface;
pub mod ops;
pub mod apply;
pub mod cache;
pub mod reduce;
pub mod iter;
pub mod binary_op;
pub mod internals;
pub mod serialization;
pub mod ordered;
pub mod bitset_ranges;
pub mod immutable_bitset;
pub mod operators;

pub use crate::bitset::BitSet;
pub use crate::bitset_interface::{BitSetBase, BitSetInterface};
pub use crate::apply::Apply;
pub use crate::reduce::Reduce;
pub use crate::bit_block::BitBlock;
pub use crate::data_block::{DataBlock, DataBlockIter};

use vstd::prelude::*;
use crate::bitset_interface::LevelMasks;
use crate::cache::{FixedCache, ReduceCache};
use crate::ops::BitSetOp;

verus! {

/// The smaller of `a` and `b`.
pub open spec fn spec_min(a: int, b: int) -> int {
    if a < b { a } else { b }
}

/// Creates a lazy bitset, as [BitSetOp] application between two bitsets.
pub fn apply<Op: BitSetOp, S1: LevelMasks, S2: LevelMasks>(op: Op, s1: S1, s2: S2) -> (r: Apply<Op, S1, S2>)
    ensures
        r.op == op,
        r.s1 == s1,
        r.s2 == s2,
{
    Apply::new(op, s1, s2)
}

/// Creates a lazy bitset, as bitsets reduction.
///
/// If `bitsets` is empty - returns `None`; otherwise - returns the resulting
/// lazy bitset. Takes at most 32 bitsets (the default cache capacity).
pub fn reduce<'a, Op: BitSetOp, S: LevelMasks>(op: Op, bitsets: &'a [S]) -> (r: Option<Reduce<'a, Op, S, FixedCache<32>>>)
    requires
        bitsets@.len() <= 32,
    ensures
        r.is_none() == (bitsets@.len() == 0),
        r matches Some(red) ==> red.sets@ == bitsets@ && red.op == op,
{
    reduce_w_cache(op, bitsets, FixedCache::<32>)
}

/// [reduce], using specific cache for iteration.
///
/// Takes at most `Cache`'s capacity of bitsets.
pub fn reduce_w_cache<'a, Op: BitSetOp, S: LevelMasks, Cache: ReduceCache>(op: Op, bitsets: &'a [S], cache: Cache)
    -> (r: Option<Reduce<'a, Op, S, Cache>>)
    requires
        bitsets@.len() <= Cache::spec_max_len(),
    ensures
        r.is_none() == (bitsets@.len() == 0),
        r matches Some(red) ==> red.sets@ == bitsets@ && red.op == op,
{
    if bitsets.len() == 0 {
        return None;
    }
    Some(Reduce { op, sets: bitsets, cache })
}

} // verus!

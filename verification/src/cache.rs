//! Cache markers for [reduce](crate::reduce) operations.
//!
//! The cache kind bounds how many bitsets a reduction takes at once.
use vstd::prelude::*;

verus! {

/// Cache is not used.
#[derive(Clone, Copy)]
pub struct NoCache;

/// Cache with fixed capacity: at most `N` bitsets per reduction.
#[derive(Clone, Copy)]
pub struct FixedCache<const N: usize>;

/// Dynamically built in-heap cache.
#[derive(Clone, Copy)]
pub struct DynamicCache;

/// Cache kind of a reduction.
pub trait ReduceCache: Copy {
    /// Most bitsets a reduction with this cache takes (`usize::MAX` if unlimited).
    spec fn spec_max_len() -> int;

    fn max_len() -> (r: usize)
        ensures
            r == Self::spec_max_len(),
    ;
}

impl ReduceCache for NoCache {
    open spec fn spec_max_len() -> int {
        usize::MAX as int
    }

    fn max_len() -> (r: usize) {
        usize::MAX
    }
}

impl<const N: usize> ReduceCache for FixedCache<N> {
    open spec fn spec_max_len() -> int {
        N as int
    }

    fn max_len() -> (r: usize) {
        N
    }
}

impl ReduceCache for DynamicCache {
    open spec fn spec_max_len() -> int {
        usize::MAX as int
    }

    fn max_len() -> (r: usize) {
        usize::MAX
    }
}

} // verus!

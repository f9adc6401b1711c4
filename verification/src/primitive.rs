//! Unsigned integers as fixed-size little-endian items.
use vstd::prelude::*;

verus! {

/// `256^n`.
pub open spec fn pow256(n: nat) -> nat
    decreases n,
{
    if n == 0 { 1 } else { 256 * pow256((n - 1) as nat) }
}

/// `256^n` for the sizes of the primitives.
pub proof fn lemma_pow256_values()
    ensures
        pow256(1) == 256,
        pow256(2) == 65536,
        pow256(4) == 4294967296,
        pow256(8) == 18446744073709551616,
{
    reveal_with_fuel(pow256, 9);
}

/// Unsigned integer primitive: a value and a size in bytes.
pub trait Primitive: Copy + Sized {
    /// The value as a mathematical integer.
    spec fn spec_value(self) -> nat;

    /// Size in bytes.
    spec fn spec_byte_size() -> nat;

    /// Largest value.
    spec fn spec_max() -> nat;

    /// Size in bytes.
    fn byte_size() -> (r: usize)
        ensures
            r == Self::spec_byte_size(),
            1 <= r <= 8,
    ;

    fn as_u64(self) -> (r: u64)
        ensures
            r == self.spec_value(),
    ;

    /// The primitive holding `v`.
    fn from_u64(v: u64) -> (r: Self)
        requires
            v <= Self::spec_max(),
        ensures
            r.spec_value() == v,
    ;

    fn from_usize(i: usize) -> (r: Self)
        requires
            i <= Self::spec_max(),
        ensures
            r.spec_value() == i,
    ;

    fn as_usize(self) -> (r: usize)
        requires
            self.spec_value() <= usize::MAX,
        ensures
            r == self.spec_value(),
    ;

    /// The values are those of `spec_byte_size` bytes.
    proof fn lemma_max()
        ensures
            Self::spec_max() + 1 == pow256(Self::spec_byte_size()),
            forall|v: Self| #[trigger] v.spec_value() <= Self::spec_max(),
    ;
}

impl Primitive for u8 {
    open spec fn spec_value(self) -> nat {
        self as nat
    }

    open spec fn spec_byte_size() -> nat {
        1
    }

    open spec fn spec_max() -> nat {
        255
    }

    fn byte_size() -> (r: usize) {
        1
    }

    fn as_u64(self) -> (r: u64) {
        self as u64
    }

    fn from_u64(v: u64) -> (r: Self) {
        v as u8
    }

    fn from_usize(i: usize) -> (r: Self) {
        i as u8
    }

    fn as_usize(self) -> (r: usize) {
        self as usize
    }

    proof fn lemma_max() {
        lemma_pow256_values();
    }
}

impl Primitive for u16 {
    open spec fn spec_value(self) -> nat {
        self as nat
    }

    open spec fn spec_byte_size() -> nat {
        2
    }

    open spec fn spec_max() -> nat {
        65535
    }

    fn byte_size() -> (r: usize) {
        2
    }

    fn as_u64(self) -> (r: u64) {
        self as u64
    }

    fn from_u64(v: u64) -> (r: Self) {
        v as u16
    }

    fn from_usize(i: usize) -> (r: Self) {
        i as u16
    }

    fn as_usize(self) -> (r: usize) {
        self as usize
    }

    proof fn lemma_max() {
        lemma_pow256_values();
    }
}

impl Primitive for u32 {
    open spec fn spec_value(self) -> nat {
        self as nat
    }

    open spec fn spec_byte_size() -> nat {
        4
    }

    open spec fn spec_max() -> nat {
        4294967295
    }

    fn byte_size() -> (r: usize) {
        4
    }

    fn as_u64(self) -> (r: u64) {
        self as u64
    }

    fn from_u64(v: u64) -> (r: Self) {
        v as u32
    }

    fn from_usize(i: usize) -> (r: Self) {
        i as u32
    }

    fn as_usize(self) -> (r: usize) {
        self as usize
    }

    proof fn lemma_max() {
        lemma_pow256_values();
    }
}

impl Primitive for u64 {
    open spec fn spec_value(self) -> nat {
        self as nat
    }

    open spec fn spec_byte_size() -> nat {
        8
    }

    open spec fn spec_max() -> nat {
        18446744073709551615
    }

    fn byte_size() -> (r: usize) {
        8
    }

    fn as_u64(self) -> (r: u64) {
        self as u64
    }

    fn from_u64(v: u64) -> (r: Self) {
        v as u64
    }

    fn from_usize(i: usize) -> (r: Self) {
        i as u64
    }

    fn as_usize(self) -> (r: usize) {
        self as usize
    }

    proof fn lemma_max() {
        lemma_pow256_values();
    }
}

} // verus!

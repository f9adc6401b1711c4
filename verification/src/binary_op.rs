//! Named binary operations: the operations of [crate::ops] under the names
//! [BitAndOp], [BitOrOp], [BitXorOp] and [BitSubOp].
use vstd::prelude::*;
use crate::ops::{BitSetOp, And, Or, Xor, Sub};

verus! {

/// A bitset operation usable between two bitsets.
pub trait BinaryOp: BitSetOp {
}

/// Intersection.
///
/// The only operation that can discard hierarchy traversal early;
/// complexity-wise the fastest one.
#[derive(Clone, Copy)]
pub struct BitAndOp;

impl BitSetOp for BitAndOp {
    open spec fn spec_member(left: bool, right: bool) -> bool {
        And::spec_member(left, right)
    }

    open spec fn spec_hierarchy_bit(left: bool, right: bool) -> bool {
        And::spec_hierarchy_bit(left, right)
    }

    open spec fn spec_trusted_hierarchy() -> bool {
        And::spec_trusted_hierarchy()
    }

    open spec fn spec_hierarchy_operands_contain_result() -> bool {
        And::spec_hierarchy_operands_contain_result()
    }

    open spec fn spec_hierarchy_op(left: u64, right: u64) -> u64 {
        And::spec_hierarchy_op(left, right)
    }

    open spec fn spec_data_op(left: u64, right: u64) -> u64 {
        And::spec_data_op(left, right)
    }

    fn trusted_hierarchy() -> (r: bool) {
        And::trusted_hierarchy()
    }

    fn hierarchy_operands_contain_result() -> (r: bool) {
        And::hierarchy_operands_contain_result()
    }

    fn hierarchy_op(left: u64, right: u64) -> (r: u64) {
        And::hierarchy_op(left, right)
    }

    fn data_op(left: u64, right: u64) -> (r: u64) {
        And::data_op(left, right)
    }

    proof fn lemma_bits(left: u64, right: u64) {
        And::lemma_bits(left, right);
    }

    proof fn lemma_cover(x: bool, y: bool, hx: bool, hy: bool) {
        And::lemma_cover(x, y, hx, hy);
    }

    proof fn lemma_trusted(x: bool, y: bool, a: u64, b: u64) {
        And::lemma_trusted(x, y, a, b);
    }

    proof fn lemma_clean(x: bool, y: bool, a: u64, b: u64) {
        And::lemma_clean(x, y, a, b);
    }

    proof fn lemma_contain(hx: bool, hy: bool) {
        And::lemma_contain(hx, hy);
    }
}

impl BinaryOp for BitAndOp {
}

/// Union.
#[derive(Clone, Copy)]
pub struct BitOrOp;

impl BitSetOp for BitOrOp {
    open spec fn spec_member(left: bool, right: bool) -> bool {
        Or::spec_member(left, right)
    }

    open spec fn spec_hierarchy_bit(left: bool, right: bool) -> bool {
        Or::spec_hierarchy_bit(left, right)
    }

    open spec fn spec_trusted_hierarchy() -> bool {
        Or::spec_trusted_hierarchy()
    }

    open spec fn spec_hierarchy_operands_contain_result() -> bool {
        Or::spec_hierarchy_operands_contain_result()
    }

    open spec fn spec_hierarchy_op(left: u64, right: u64) -> u64 {
        Or::spec_hierarchy_op(left, right)
    }

    open spec fn spec_data_op(left: u64, right: u64) -> u64 {
        Or::spec_data_op(left, right)
    }

    fn trusted_hierarchy() -> (r: bool) {
        Or::trusted_hierarchy()
    }

    fn hierarchy_operands_contain_result() -> (r: bool) {
        Or::hierarchy_operands_contain_result()
    }

    fn hierarchy_op(left: u64, right: u64) -> (r: u64) {
        Or::hierarchy_op(left, right)
    }

    fn data_op(left: u64, right: u64) -> (r: u64) {
        Or::data_op(left, right)
    }

    proof fn lemma_bits(left: u64, right: u64) {
        Or::lemma_bits(left, right);
    }

    proof fn lemma_cover(x: bool, y: bool, hx: bool, hy: bool) {
        Or::lemma_cover(x, y, hx, hy);
    }

    proof fn lemma_trusted(x: bool, y: bool, a: u64, b: u64) {
        Or::lemma_trusted(x, y, a, b);
    }

    proof fn lemma_clean(x: bool, y: bool, a: u64, b: u64) {
        Or::lemma_clean(x, y, a, b);
    }

    proof fn lemma_contain(hx: bool, hy: bool) {
        Or::lemma_contain(hx, hy);
    }
}

impl BinaryOp for BitOrOp {
}

/// Symmetric difference.
///
/// Has the performance of [BitOrOp]: hierarchy layers do not take part in
/// culling a symmetric difference.
#[derive(Clone, Copy)]
pub struct BitXorOp;

impl BitSetOp for BitXorOp {
    open spec fn spec_member(left: bool, right: bool) -> bool {
        Xor::spec_member(left, right)
    }

    open spec fn spec_hierarchy_bit(left: bool, right: bool) -> bool {
        Xor::spec_hierarchy_bit(left, right)
    }

    open spec fn spec_trusted_hierarchy() -> bool {
        Xor::spec_trusted_hierarchy()
    }

    open spec fn spec_hierarchy_operands_contain_result() -> bool {
        Xor::spec_hierarchy_operands_contain_result()
    }

    open spec fn spec_hierarchy_op(left: u64, right: u64) -> u64 {
        Xor::spec_hierarchy_op(left, right)
    }

    open spec fn spec_data_op(left: u64, right: u64) -> u64 {
        Xor::spec_data_op(left, right)
    }

    fn trusted_hierarchy() -> (r: bool) {
        Xor::trusted_hierarchy()
    }

    fn hierarchy_operands_contain_result() -> (r: bool) {
        Xor::hierarchy_operands_contain_result()
    }

    fn hierarchy_op(left: u64, right: u64) -> (r: u64) {
        Xor::hierarchy_op(left, right)
    }

    fn data_op(left: u64, right: u64) -> (r: u64) {
        Xor::data_op(left, right)
    }

    proof fn lemma_bits(left: u64, right: u64) {
        Xor::lemma_bits(left, right);
    }

    proof fn lemma_cover(x: bool, y: bool, hx: bool, hy: bool) {
        Xor::lemma_cover(x, y, hx, hy);
    }

    proof fn lemma_trusted(x: bool, y: bool, a: u64, b: u64) {
        Xor::lemma_trusted(x, y, a, b);
    }

    proof fn lemma_clean(x: bool, y: bool, a: u64, b: u64) {
        Xor::lemma_clean(x, y, a, b);
    }

    proof fn lemma_contain(hx: bool, hy: bool) {
        Xor::lemma_contain(hx, hy);
    }
}

impl BinaryOp for BitXorOp {
}

/// Difference: left without right.
///
/// Has the performance of traversing the left operand.
#[derive(Clone, Copy)]
pub struct BitSubOp;

impl BitSetOp for BitSubOp {
    open spec fn spec_member(left: bool, right: bool) -> bool {
        Sub::spec_member(left, right)
    }

    open spec fn spec_hierarchy_bit(left: bool, right: bool) -> bool {
        Sub::spec_hierarchy_bit(left, right)
    }

    open spec fn spec_trusted_hierarchy() -> bool {
        Sub::spec_trusted_hierarchy()
    }

    open spec fn spec_hierarchy_operands_contain_result() -> bool {
        Sub::spec_hierarchy_operands_contain_result()
    }

    open spec fn spec_hierarchy_op(left: u64, right: u64) -> u64 {
        Sub::spec_hierarchy_op(left, right)
    }

    open spec fn spec_data_op(left: u64, right: u64) -> u64 {
        Sub::spec_data_op(left, right)
    }

    fn trusted_hierarchy() -> (r: bool) {
        Sub::trusted_hierarchy()
    }

    fn hierarchy_operands_contain_result() -> (r: bool) {
        Sub::hierarchy_operands_contain_result()
    }

    fn hierarchy_op(left: u64, right: u64) -> (r: u64) {
        Sub::hierarchy_op(left, right)
    }

    fn data_op(left: u64, right: u64) -> (r: u64) {
        Sub::data_op(left, right)
    }

    proof fn lemma_bits(left: u64, right: u64) {
        Sub::lemma_bits(left, right);
    }

    proof fn lemma_cover(x: bool, y: bool, hx: bool, hy: bool) {
        Sub::lemma_cover(x, y, hx, hy);
    }

    proof fn lemma_trusted(x: bool, y: bool, a: u64, b: u64) {
        Sub::lemma_trusted(x, y, a, b);
    }

    proof fn lemma_clean(x: bool, y: bool, a: u64, b: u64) {
        Sub::lemma_clean(x, y, a, b);
    }

    proof fn lemma_contain(hx: bool, hy: bool) {
        Sub::lemma_contain(hx, hy);
    }
}

impl BinaryOp for BitSubOp {
}

} // verus!

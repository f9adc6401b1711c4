//! Operations for [apply] and [reduce].
//!
//! * [And] is the only operation that can discard blocks early
//! on hierarchy level during traverse.
//! * [Or] - does not need to discard any blocks, since it is a merge operation by definition.
//! * [Xor] - have [Or] performance.
//! * [Sub] - traverse all left operand bitset blocks.
//!
//! [apply]: crate::apply
//! [reduce]: crate::reduce
use vstd::prelude::*;
use crate::bit_utils::{bit_at, lemma_nonzero_has_bit};

verus! {

/// Binary operation interface for bitsets.
///
/// The operation acts on hierarchy blocks (to cut the traversal) and on
/// data blocks (the actual bits). Each index of the result is decided by
/// [spec_member](Self::spec_member) from its presence in both operands.
pub trait BitSetOp: Copy + Sized {
    /// Presence in the result, given presence in left and right.
    spec fn spec_member(left: bool, right: bool) -> bool;

    /// A hierarchy bit of the result, given the operands' hierarchy bits.
    spec fn spec_hierarchy_bit(left: bool, right: bool) -> bool;

    /// Does an operation between two trusted hierarchies give a trusted one?
    spec fn spec_trusted_hierarchy() -> bool;

    /// Do both operands' hierarchies contain the result's hierarchy?
    spec fn spec_hierarchy_operands_contain_result() -> bool;

    spec fn spec_hierarchy_op(left: u64, right: u64) -> u64;

    spec fn spec_data_op(left: u64, right: u64) -> u64;

    /// Will operation between two TrustedHierarchy bitsets produce TrustedHierarchy as well?
    fn trusted_hierarchy() -> (r: bool)
        ensures
            r == Self::spec_trusted_hierarchy(),
    ;

    /// Does the hierarchy result lie in both hierarchy operands?
    fn hierarchy_operands_contain_result() -> (r: bool)
        ensures
            r == Self::spec_hierarchy_operands_contain_result(),
    ;

    /// Operation applied to indirection/hierarchy level bitblock.
    fn hierarchy_op(left: u64, right: u64) -> (r: u64)
        ensures
            r == Self::spec_hierarchy_op(left, right),
    ;

    /// Operation applied to data level bitblock.
    fn data_op(left: u64, right: u64) -> (r: u64)
        ensures
            r == Self::spec_data_op(left, right),
    ;

    /// Both block operations act bit by bit.
    proof fn lemma_bits(left: u64, right: u64)
        ensures
            forall|j: u64|
                j < 64 ==> #[trigger] bit_at(Self::spec_data_op(left, right), j) == Self::spec_member(
                    bit_at(left, j),
                    bit_at(right, j),
                ),
            forall|j: u64|
                j < 64 ==> #[trigger] bit_at(Self::spec_hierarchy_op(left, right), j)
                    == Self::spec_hierarchy_bit(bit_at(left, j), bit_at(right, j)),
    ;

    /// The hierarchy bit covers membership: where the operands' hierarchy
    /// bits cover their members, the result's covers its members.
    proof fn lemma_cover(x: bool, y: bool, hx: bool, hy: bool)
        requires
            x ==> hx,
            y ==> hy,
            Self::spec_member(x, y),
        ensures
            Self::spec_hierarchy_bit(hx, hy),
    ;

    /// For a trusted operation: a raised hierarchy bit over operands whose
    /// hierarchy bits point to non-empty blocks points to non-empty blocks.
    proof fn lemma_trusted(x: bool, y: bool, a: u64, b: u64)
        requires
            x ==> a != 0,
            y ==> b != 0,
            Self::spec_hierarchy_bit(x, y),
        ensures
            Self::spec_trusted_hierarchy() ==> Self::spec_hierarchy_op(a, b) != 0 && Self::spec_data_op(a, b) != 0,
    ;

    /// A clear hierarchy bit over operands that are empty where their own
    /// hierarchy bits are clear gives an empty result.
    proof fn lemma_clean(x: bool, y: bool, a: u64, b: u64)
        requires
            !Self::spec_hierarchy_bit(x, y),
            !x ==> a == 0,
            !y ==> b == 0,
        ensures
            Self::spec_hierarchy_op(a, b) == 0,
    ;

    /// Operands with raised hierarchy bits give a raised hierarchy bit,
    /// when both hierarchies contain the result.
    proof fn lemma_contain(hx: bool, hy: bool)
        ensures
            Self::spec_hierarchy_operands_contain_result() ==> (Self::spec_hierarchy_bit(hx, hy) ==> hx && hy),
    ;
}

/// Intersection
///
/// Will traverse only intersected blocks of left and right.
#[derive(Clone, Copy)]
pub struct And;

/// Union
///
/// Will traverse all blocks of left and right. (Since all of them participate in merge)
#[derive(Clone, Copy)]
pub struct Or;

/// Symmetric difference.
///
/// Have performance of [Or].
#[derive(Clone, Copy)]
pub struct Xor;

/// Difference (relative complement) left\right.
///
/// Have performance of traversing left operand.
#[derive(Clone, Copy)]
pub struct Sub;

impl BitSetOp for And {
    open spec fn spec_member(left: bool, right: bool) -> bool {
        left && right
    }

    open spec fn spec_hierarchy_bit(left: bool, right: bool) -> bool {
        left && right
    }

    /// Intersection of trusted hierarchies may raise hierarchy bits over
    /// empty blocks.
    open spec fn spec_trusted_hierarchy() -> bool {
        false
    }

    open spec fn spec_hierarchy_operands_contain_result() -> bool {
        true
    }

    open spec fn spec_hierarchy_op(left: u64, right: u64) -> u64 {
        left & right
    }

    open spec fn spec_data_op(left: u64, right: u64) -> u64 {
        left & right
    }

    fn trusted_hierarchy() -> (r: bool) {
        false
    }

    fn hierarchy_operands_contain_result() -> (r: bool) {
        true
    }

    fn hierarchy_op(left: u64, right: u64) -> (r: u64) {
        left & right
    }

    fn data_op(left: u64, right: u64) -> (r: u64) {
        left & right
    }

    proof fn lemma_bits(left: u64, right: u64) {
        assert forall|j: u64| j < 64 implies #[trigger] bit_at(left & right, j) == (bit_at(left, j) && bit_at(right, j)) by {
            assert((((left & right) >> j) & 1u64 == 1u64) == (((left >> j) & 1u64 == 1u64) && ((right >> j) & 1u64 == 1u64))) by (bit_vector);
        }
    }

    proof fn lemma_cover(x: bool, y: bool, hx: bool, hy: bool) {
    }

    proof fn lemma_trusted(x: bool, y: bool, a: u64, b: u64) {
        
    }

    proof fn lemma_clean(x: bool, y: bool, a: u64, b: u64) {
        assert(a == 0u64 || b == 0u64 ==> a & b == 0u64) by (bit_vector);
    }

    proof fn lemma_contain(hx: bool, hy: bool) {
    }
}

impl BitSetOp for Or {
    open spec fn spec_member(left: bool, right: bool) -> bool {
        left || right
    }

    open spec fn spec_hierarchy_bit(left: bool, right: bool) -> bool {
        left || right
    }

    open spec fn spec_trusted_hierarchy() -> bool {
        true
    }

    open spec fn spec_hierarchy_operands_contain_result() -> bool {
        false
    }

    open spec fn spec_hierarchy_op(left: u64, right: u64) -> u64 {
        left | right
    }

    open spec fn spec_data_op(left: u64, right: u64) -> u64 {
        left | right
    }

    fn trusted_hierarchy() -> (r: bool) {
        true
    }

    fn hierarchy_operands_contain_result() -> (r: bool) {
        false
    }

    fn hierarchy_op(left: u64, right: u64) -> (r: u64) {
        left | right
    }

    fn data_op(left: u64, right: u64) -> (r: u64) {
        left | right
    }

    proof fn lemma_bits(left: u64, right: u64) {
        assert forall|j: u64| j < 64 implies #[trigger] bit_at(left | right, j) == (bit_at(left, j) || bit_at(right, j)) by {
            assert((((left | right) >> j) & 1u64 == 1u64) == (((left >> j) & 1u64 == 1u64) || ((right >> j) & 1u64 == 1u64))) by (bit_vector);
        }
    }

    proof fn lemma_cover(x: bool, y: bool, hx: bool, hy: bool) {
    }

    proof fn lemma_trusted(x: bool, y: bool, a: u64, b: u64) {
        assert(a != 0u64 ==> a | b != 0u64) by (bit_vector);
        assert(b != 0u64 ==> a | b != 0u64) by (bit_vector);
    }

    proof fn lemma_clean(x: bool, y: bool, a: u64, b: u64) {
        assert(a == 0u64 && b == 0u64 ==> a | b == 0u64) by (bit_vector);
    }

    proof fn lemma_contain(hx: bool, hy: bool) {
    }
}

impl BitSetOp for Xor {
    open spec fn spec_member(left: bool, right: bool) -> bool {
        left != right
    }

    open spec fn spec_hierarchy_bit(left: bool, right: bool) -> bool {
        left || right
    }

    open spec fn spec_trusted_hierarchy() -> bool {
        false
    }

    open spec fn spec_hierarchy_operands_contain_result() -> bool {
        false
    }

    open spec fn spec_hierarchy_op(left: u64, right: u64) -> u64 {
        left | right
    }

    open spec fn spec_data_op(left: u64, right: u64) -> u64 {
        left ^ right
    }

    fn trusted_hierarchy() -> (r: bool) {
        false
    }

    fn hierarchy_operands_contain_result() -> (r: bool) {
        false
    }

    fn hierarchy_op(left: u64, right: u64) -> (r: u64) {
        left | right
    }

    fn data_op(left: u64, right: u64) -> (r: u64) {
        left ^ right
    }

    proof fn lemma_bits(left: u64, right: u64) {
        assert forall|j: u64| j < 64 implies #[trigger] bit_at(left ^ right, j) == (bit_at(left, j) != bit_at(right, j)) by {
            assert((((left ^ right) >> j) & 1u64 == 1u64) == (((left >> j) & 1u64 == 1u64) != ((right >> j) & 1u64 == 1u64))) by (bit_vector);
        }
        assert forall|j: u64| j < 64 implies #[trigger] bit_at(left | right, j) == (bit_at(left, j) || bit_at(right, j)) by {
            assert((((left | right) >> j) & 1u64 == 1u64) == (((left >> j) & 1u64 == 1u64) || ((right >> j) & 1u64 == 1u64))) by (bit_vector);
        }
    }

    proof fn lemma_cover(x: bool, y: bool, hx: bool, hy: bool) {
    }

    proof fn lemma_trusted(x: bool, y: bool, a: u64, b: u64) {
        
    }

    proof fn lemma_clean(x: bool, y: bool, a: u64, b: u64) {
        assert(a == 0u64 && b == 0u64 ==> a | b == 0u64) by (bit_vector);
    }

    proof fn lemma_contain(hx: bool, hy: bool) {
    }
}

impl BitSetOp for Sub {
    open spec fn spec_member(left: bool, right: bool) -> bool {
        left && !right
    }

    open spec fn spec_hierarchy_bit(left: bool, right: bool) -> bool {
        left
    }

    open spec fn spec_trusted_hierarchy() -> bool {
        false
    }

    open spec fn spec_hierarchy_operands_contain_result() -> bool {
        false
    }

    open spec fn spec_hierarchy_op(left: u64, right: u64) -> u64 {
        left
    }

    open spec fn spec_data_op(left: u64, right: u64) -> u64 {
        left & (left ^ right)
    }

    fn trusted_hierarchy() -> (r: bool) {
        false
    }

    fn hierarchy_operands_contain_result() -> (r: bool) {
        false
    }

    fn hierarchy_op(left: u64, right: u64) -> (r: u64) {
        left
    }

    fn data_op(left: u64, right: u64) -> (r: u64) {
        left & (left ^ right)
    }

    proof fn lemma_bits(left: u64, right: u64) {
        assert forall|j: u64| j < 64 implies #[trigger] bit_at(left & (left ^ right), j) == (bit_at(left, j) && !bit_at(right, j)) by {
            assert((((left & (left ^ right)) >> j) & 1u64 == 1u64) == (((left >> j) & 1u64 == 1u64) && !((right >> j) & 1u64 == 1u64))) by (bit_vector);
        }
    }

    proof fn lemma_cover(x: bool, y: bool, hx: bool, hy: bool) {
    }

    proof fn lemma_trusted(x: bool, y: bool, a: u64, b: u64) {
        
    }

    proof fn lemma_clean(x: bool, y: bool, a: u64, b: u64) {
        
    }

    proof fn lemma_contain(hx: bool, hy: bool) {
    }
}

/// A non-empty data result comes from operands whose emptiness the
/// hierarchy bit covers.
pub proof fn lemma_data_nonzero_covered<Op: BitSetOp>(a: u64, b: u64, ha: bool, hb: bool)
    requires
        a != 0 ==> ha,
        b != 0 ==> hb,
        Op::spec_data_op(a, b) != 0,
    ensures
        Op::spec_hierarchy_bit(ha, hb),
{
    let j = lemma_nonzero_has_bit(Op::spec_data_op(a, b));
    Op::lemma_bits(a, b);
    assert(Op::spec_member(bit_at(a, j), bit_at(b, j)));
    if bit_at(a, j) { crate::bit_utils::lemma_bit_nonzero(a, j); }
    if bit_at(b, j) { crate::bit_utils::lemma_bit_nonzero(b, j); }
    Op::lemma_cover(bit_at(a, j), bit_at(b, j), ha, hb);
}

} // verus!

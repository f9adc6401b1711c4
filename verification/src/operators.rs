//! Set operators `&`, `|`, `^` between bitsets: each gives the lazy
//! [Apply] of its operation on the two operands. (The difference is
//! [apply](crate::apply) with [Sub](crate::ops::Sub).)
use vstd::prelude::*;
use crate::apply::Apply;
use crate::bitset::BitSet;
use crate::bitset_interface::LevelMasks;
use crate::ops::{BitSetOp, And, Or, Xor};
use crate::reduce::Reduce;

verus! {

impl<'a, Rhs: LevelMasks> std::ops::BitAnd<Rhs> for &'a BitSet {
    type Output = Apply<And, Self, Rhs>;

    /// Lazy intersection of a bitset, by reference and `rhs`.
    fn bitand(self, rhs: Rhs) -> (r: Apply<And, Self, Rhs>) {
        Apply::new(And, self, rhs)
    }
}

impl<'a, Rhs: LevelMasks> vstd::std_specs::ops::BitAndSpecImpl<Rhs> for &'a BitSet {
    open spec fn obeys_bitand_spec() -> bool {
        true
    }

    open spec fn bitand_req(self, rhs: Rhs) -> bool {
        true
    }

    open spec fn bitand_spec(self, rhs: Rhs) -> Apply<And, Self, Rhs> {
        Apply { op: And, s1: self, s2: rhs }
    }
}

impl<'a, Rhs: LevelMasks> std::ops::BitOr<Rhs> for &'a BitSet {
    type Output = Apply<Or, Self, Rhs>;

    /// Lazy union of a bitset, by reference and `rhs`.
    fn bitor(self, rhs: Rhs) -> (r: Apply<Or, Self, Rhs>) {
        Apply::new(Or, self, rhs)
    }
}

impl<'a, Rhs: LevelMasks> vstd::std_specs::ops::BitOrSpecImpl<Rhs> for &'a BitSet {
    open spec fn obeys_bitor_spec() -> bool {
        true
    }

    open spec fn bitor_req(self, rhs: Rhs) -> bool {
        true
    }

    open spec fn bitor_spec(self, rhs: Rhs) -> Apply<Or, Self, Rhs> {
        Apply { op: Or, s1: self, s2: rhs }
    }
}

impl<'a, Rhs: LevelMasks> std::ops::BitXor<Rhs> for &'a BitSet {
    type Output = Apply<Xor, Self, Rhs>;

    /// Lazy symmetric difference of a bitset, by reference and `rhs`.
    fn bitxor(self, rhs: Rhs) -> (r: Apply<Xor, Self, Rhs>) {
        Apply::new(Xor, self, rhs)
    }
}

impl<'a, Rhs: LevelMasks> vstd::std_specs::ops::BitXorSpecImpl<Rhs> for &'a BitSet {
    open spec fn obeys_bitxor_spec() -> bool {
        true
    }

    open spec fn bitxor_req(self, rhs: Rhs) -> bool {
        true
    }

    open spec fn bitxor_spec(self, rhs: Rhs) -> Apply<Xor, Self, Rhs> {
        Apply { op: Xor, s1: self, s2: rhs }
    }
}

impl<Op: BitSetOp, S1: LevelMasks, S2: LevelMasks, Rhs: LevelMasks> std::ops::BitAnd<Rhs> for Apply<Op, S1, S2> {
    type Output = Apply<And, Self, Rhs>;

    /// Lazy intersection of a lazy operation and `rhs`.
    fn bitand(self, rhs: Rhs) -> (r: Apply<And, Self, Rhs>) {
        Apply::new(And, self, rhs)
    }
}

impl<Op: BitSetOp, S1: LevelMasks, S2: LevelMasks, Rhs: LevelMasks> vstd::std_specs::ops::BitAndSpecImpl<Rhs> for Apply<Op, S1, S2> {
    open spec fn obeys_bitand_spec() -> bool {
        true
    }

    open spec fn bitand_req(self, rhs: Rhs) -> bool {
        true
    }

    open spec fn bitand_spec(self, rhs: Rhs) -> Apply<And, Self, Rhs> {
        Apply { op: And, s1: self, s2: rhs }
    }
}

impl<Op: BitSetOp, S1: LevelMasks, S2: LevelMasks, Rhs: LevelMasks> std::ops::BitOr<Rhs> for Apply<Op, S1, S2> {
    type Output = Apply<Or, Self, Rhs>;

    /// Lazy union of a lazy operation and `rhs`.
    fn bitor(self, rhs: Rhs) -> (r: Apply<Or, Self, Rhs>) {
        Apply::new(Or, self, rhs)
    }
}

impl<Op: BitSetOp, S1: LevelMasks, S2: LevelMasks, Rhs: LevelMasks> vstd::std_specs::ops::BitOrSpecImpl<Rhs> for Apply<Op, S1, S2> {
    open spec fn obeys_bitor_spec() -> bool {
        true
    }

    open spec fn bitor_req(self, rhs: Rhs) -> bool {
        true
    }

    open spec fn bitor_spec(self, rhs: Rhs) -> Apply<Or, Self, Rhs> {
        Apply { op: Or, s1: self, s2: rhs }
    }
}

impl<Op: BitSetOp, S1: LevelMasks, S2: LevelMasks, Rhs: LevelMasks> std::ops::BitXor<Rhs> for Apply<Op, S1, S2> {
    type Output = Apply<Xor, Self, Rhs>;

    /// Lazy symmetric difference of a lazy operation and `rhs`.
    fn bitxor(self, rhs: Rhs) -> (r: Apply<Xor, Self, Rhs>) {
        Apply::new(Xor, self, rhs)
    }
}

impl<Op: BitSetOp, S1: LevelMasks, S2: LevelMasks, Rhs: LevelMasks> vstd::std_specs::ops::BitXorSpecImpl<Rhs> for Apply<Op, S1, S2> {
    open spec fn obeys_bitxor_spec() -> bool {
        true
    }

    open spec fn bitxor_req(self, rhs: Rhs) -> bool {
        true
    }

    open spec fn bitxor_spec(self, rhs: Rhs) -> Apply<Xor, Self, Rhs> {
        Apply { op: Xor, s1: self, s2: rhs }
    }
}

impl<'a, Op: BitSetOp, S1: LevelMasks, S2: LevelMasks, Rhs: LevelMasks> std::ops::BitAnd<Rhs> for &'a Apply<Op, S1, S2> {
    type Output = Apply<And, Self, Rhs>;

    /// Lazy intersection of a lazy operation, by reference and `rhs`.
    fn bitand(self, rhs: Rhs) -> (r: Apply<And, Self, Rhs>) {
        Apply::new(And, self, rhs)
    }
}

impl<'a, Op: BitSetOp, S1: LevelMasks, S2: LevelMasks, Rhs: LevelMasks> vstd::std_specs::ops::BitAndSpecImpl<Rhs> for &'a Apply<Op, S1, S2> {
    open spec fn obeys_bitand_spec() -> bool {
        true
    }

    open spec fn bitand_req(self, rhs: Rhs) -> bool {
        true
    }

    open spec fn bitand_spec(self, rhs: Rhs) -> Apply<And, Self, Rhs> {
        Apply { op: And, s1: self, s2: rhs }
    }
}

impl<'a, Op: BitSetOp, S1: LevelMasks, S2: LevelMasks, Rhs: LevelMasks> std::ops::BitOr<Rhs> for &'a Apply<Op, S1, S2> {
    type Output = Apply<Or, Self, Rhs>;

    /// Lazy union of a lazy operation, by reference and `rhs`.
    fn bitor(self, rhs: Rhs) -> (r: Apply<Or, Self, Rhs>) {
        Apply::new(Or, self, rhs)
    }
}

impl<'a, Op: BitSetOp, S1: LevelMasks, S2: LevelMasks, Rhs: LevelMasks> vstd::std_specs::ops::BitOrSpecImpl<Rhs> for &'a Apply<Op, S1, S2> {
    open spec fn obeys_bitor_spec() -> bool {
        true
    }

    open spec fn bitor_req(self, rhs: Rhs) -> bool {
        true
    }

    open spec fn bitor_spec(self, rhs: Rhs) -> Apply<Or, Self, Rhs> {
        Apply { op: Or, s1: self, s2: rhs }
    }
}

impl<'a, Op: BitSetOp, S1: LevelMasks, S2: LevelMasks, Rhs: LevelMasks> std::ops::BitXor<Rhs> for &'a Apply<Op, S1, S2> {
    type Output = Apply<Xor, Self, Rhs>;

    /// Lazy symmetric difference of a lazy operation, by reference and `rhs`.
    fn bitxor(self, rhs: Rhs) -> (r: Apply<Xor, Self, Rhs>) {
        Apply::new(Xor, self, rhs)
    }
}

impl<'a, Op: BitSetOp, S1: LevelMasks, S2: LevelMasks, Rhs: LevelMasks> vstd::std_specs::ops::BitXorSpecImpl<Rhs> for &'a Apply<Op, S1, S2> {
    open spec fn obeys_bitxor_spec() -> bool {
        true
    }

    open spec fn bitxor_req(self, rhs: Rhs) -> bool {
        true
    }

    open spec fn bitxor_spec(self, rhs: Rhs) -> Apply<Xor, Self, Rhs> {
        Apply { op: Xor, s1: self, s2: rhs }
    }
}

impl<'a, Op: BitSetOp, S: LevelMasks, Cache, Rhs: LevelMasks> std::ops::BitAnd<Rhs> for Reduce<'a, Op, S, Cache> {
    type Output = Apply<And, Self, Rhs>;

    /// Lazy intersection of a reduction and `rhs`.
    fn bitand(self, rhs: Rhs) -> (r: Apply<And, Self, Rhs>) {
        Apply::new(And, self, rhs)
    }
}

impl<'a, Op: BitSetOp, S: LevelMasks, Cache, Rhs: LevelMasks> vstd::std_specs::ops::BitAndSpecImpl<Rhs> for Reduce<'a, Op, S, Cache> {
    open spec fn obeys_bitand_spec() -> bool {
        true
    }

    open spec fn bitand_req(self, rhs: Rhs) -> bool {
        true
    }

    open spec fn bitand_spec(self, rhs: Rhs) -> Apply<And, Self, Rhs> {
        Apply { op: And, s1: self, s2: rhs }
    }
}

impl<'a, Op: BitSetOp, S: LevelMasks, Cache, Rhs: LevelMasks> std::ops::BitOr<Rhs> for Reduce<'a, Op, S, Cache> {
    type Output = Apply<Or, Self, Rhs>;

    /// Lazy union of a reduction and `rhs`.
    fn bitor(self, rhs: Rhs) -> (r: Apply<Or, Self, Rhs>) {
        Apply::new(Or, self, rhs)
    }
}

impl<'a, Op: BitSetOp, S: LevelMasks, Cache, Rhs: LevelMasks> vstd::std_specs::ops::BitOrSpecImpl<Rhs> for Reduce<'a, Op, S, Cache> {
    open spec fn obeys_bitor_spec() -> bool {
        true
    }

    open spec fn bitor_req(self, rhs: Rhs) -> bool {
        true
    }

    open spec fn bitor_spec(self, rhs: Rhs) -> Apply<Or, Self, Rhs> {
        Apply { op: Or, s1: self, s2: rhs }
    }
}

impl<'a, Op: BitSetOp, S: LevelMasks, Cache, Rhs: LevelMasks> std::ops::BitXor<Rhs> for Reduce<'a, Op, S, Cache> {
    type Output = Apply<Xor, Self, Rhs>;

    /// Lazy symmetric difference of a reduction and `rhs`.
    fn bitxor(self, rhs: Rhs) -> (r: Apply<Xor, Self, Rhs>) {
        Apply::new(Xor, self, rhs)
    }
}

impl<'a, Op: BitSetOp, S: LevelMasks, Cache, Rhs: LevelMasks> vstd::std_specs::ops::BitXorSpecImpl<Rhs> for Reduce<'a, Op, S, Cache> {
    open spec fn obeys_bitxor_spec() -> bool {
        true
    }

    open spec fn bitxor_req(self, rhs: Rhs) -> bool {
        true
    }

    open spec fn bitxor_spec(self, rhs: Rhs) -> Apply<Xor, Self, Rhs> {
        Apply { op: Xor, s1: self, s2: rhs }
    }
}

impl<'a, 'b, Op: BitSetOp, S: LevelMasks, Cache, Rhs: LevelMasks> std::ops::BitAnd<Rhs> for &'b Reduce<'a, Op, S, Cache> {
    type Output = Apply<And, Self, Rhs>;

    /// Lazy intersection of a reduction, by reference and `rhs`.
    fn bitand(self, rhs: Rhs) -> (r: Apply<And, Self, Rhs>) {
        Apply::new(And, self, rhs)
    }
}

impl<'a, 'b, Op: BitSetOp, S: LevelMasks, Cache, Rhs: LevelMasks> vstd::std_specs::ops::BitAndSpecImpl<Rhs> for &'b Reduce<'a, Op, S, Cache> {
    open spec fn obeys_bitand_spec() -> bool {
        true
    }

    open spec fn bitand_req(self, rhs: Rhs) -> bool {
        true
    }

    open spec fn bitand_spec(self, rhs: Rhs) -> Apply<And, Self, Rhs> {
        Apply { op: And, s1: self, s2: rhs }
    }
}

impl<'a, 'b, Op: BitSetOp, S: LevelMasks, Cache, Rhs: LevelMasks> std::ops::BitOr<Rhs> for &'b Reduce<'a, Op, S, Cache> {
    type Output = Apply<Or, Self, Rhs>;

    /// Lazy union of a reduction, by reference and `rhs`.
    fn bitor(self, rhs: Rhs) -> (r: Apply<Or, Self, Rhs>) {
        Apply::new(Or, self, rhs)
    }
}

impl<'a, 'b, Op: BitSetOp, S: LevelMasks, Cache, Rhs: LevelMasks> vstd::std_specs::ops::BitOrSpecImpl<Rhs> for &'b Reduce<'a, Op, S, Cache> {
    open spec fn obeys_bitor_spec() -> bool {
        true
    }

    open spec fn bitor_req(self, rhs: Rhs) -> bool {
        true
    }

    open spec fn bitor_spec(self, rhs: Rhs) -> Apply<Or, Self, Rhs> {
        Apply { op: Or, s1: self, s2: rhs }
    }
}

impl<'a, 'b, Op: BitSetOp, S: LevelMasks, Cache, Rhs: LevelMasks> std::ops::BitXor<Rhs> for &'b Reduce<'a, Op, S, Cache> {
    type Output = Apply<Xor, Self, Rhs>;

    /// Lazy symmetric difference of a reduction, by reference and `rhs`.
    fn bitxor(self, rhs: Rhs) -> (r: Apply<Xor, Self, Rhs>) {
        Apply::new(Xor, self, rhs)
    }
}

impl<'a, 'b, Op: BitSetOp, S: LevelMasks, Cache, Rhs: LevelMasks> vstd::std_specs::ops::BitXorSpecImpl<Rhs> for &'b Reduce<'a, Op, S, Cache> {
    open spec fn obeys_bitxor_spec() -> bool {
        true
    }

    open spec fn bitxor_req(self, rhs: Rhs) -> bool {
        true
    }

    open spec fn bitxor_spec(self, rhs: Rhs) -> Apply<Xor, Self, Rhs> {
        Apply { op: Xor, s1: self, s2: rhs }
    }
}

} // verus!

//! The reduction operators on vectors of known bits: the boolean AND, OR
//! and parity they compute.
use crate::ast::{LogicBit, UnaryOp};
use crate::value::{bool_bit, is_known, reduce};
use vstd::prelude::*;

verus! {

/// AND-reduction of a vector whose bits are all `1` is `1` (NAND: `0`); with
/// `crate::value::lemma_and_reduction_zero` it is the boolean AND on known bits.
pub proof fn lemma_and_reduction_all_ones(bits: Seq<LogicBit>)
    requires
        forall|i: int| 0 <= i < bits.len() ==> #[trigger] bits[i] == LogicBit::One,
    ensures
        reduce(UnaryOp::ReductionAnd, bits) == LogicBit::One,
        reduce(UnaryOp::ReductionNand, bits) == LogicBit::Zero,
    decreases bits.len(),
{
    if bits.len() > 0 {
        let d = bits.drop_last();
        assert forall|i: int| 0 <= i < d.len() implies #[trigger] d[i] == LogicBit::One by {
            assert(d[i] == bits[i]);
        }
        lemma_and_reduction_all_ones(d);
        assert(bits[bits.len() - 1] == LogicBit::One);
    }
}

/// OR-reduction of a vector whose bits are all `0` is `0` (NOR: `1`); with
/// `crate::value::lemma_or_reduction_one` it is the boolean OR on known bits.
pub proof fn lemma_or_reduction_all_zeros(bits: Seq<LogicBit>)
    requires
        forall|i: int| 0 <= i < bits.len() ==> #[trigger] bits[i] == LogicBit::Zero,
    ensures
        reduce(UnaryOp::ReductionOr, bits) == LogicBit::Zero,
        reduce(UnaryOp::ReductionNor, bits) == LogicBit::One,
    decreases bits.len(),
{
    if bits.len() > 0 {
        let d = bits.drop_last();
        assert forall|i: int| 0 <= i < d.len() implies #[trigger] d[i] == LogicBit::Zero by {
            assert(d[i] == bits[i]);
        }
        lemma_or_reduction_all_zeros(d);
        assert(bits[bits.len() - 1] == LogicBit::Zero);
    }
}

/// How many bits of `bits` are `1`.
pub open spec fn count_ones(bits: Seq<LogicBit>) -> nat
    decreases bits.len(),
{
    if bits.len() == 0 {
        0
    } else {
        count_ones(bits.drop_last()) + if bits.last() == LogicBit::One {
            1nat
        } else {
            0nat
        }
    }
}

/// XOR-reduction of known bits is their parity: `1` exactly when an odd
/// number of them are `1` (XNOR: the opposite).
pub proof fn lemma_xor_reduction_parity(bits: Seq<LogicBit>)
    requires
        forall|i: int| 0 <= i < bits.len() ==> is_known(#[trigger] bits[i]),
    ensures
        reduce(UnaryOp::ReductionXor, bits) == bool_bit(count_ones(bits) % 2 == 1),
        reduce(UnaryOp::ReductionXnor, bits) == bool_bit(count_ones(bits) % 2 == 0),
    decreases bits.len(),
{
    if bits.len() > 0 {
        let d = bits.drop_last();
        assert forall|i: int| 0 <= i < d.len() implies is_known(#[trigger] d[i]) by {
            assert(d[i] == bits[i]);
        }
        lemma_xor_reduction_parity(d);
        assert(is_known(bits[bits.len() - 1]));
    }
}

} // verus!

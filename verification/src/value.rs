//! Four-state integer values and the bit-level rules of Verilog operators
//! (LRM 4.1, 5.1): the materialisation of a parsed literal into its bits; the
//! truth tables, reductions, logical value, equality and relational
//! operators; arithmetic, power, shifts and `$clog2` at a given width; the
//! merge of a conditional with an unknown condition; replication counts; and
//! the width / signedness / base that operators give their results.
//!
//! Bit vectors are stored least significant bit first: `bits[0]` is bit 0.
use crate::ast::{
    shift_bits_left, shift_bits_right, Base, BinaryOp, LiteralPayload, LiteralSpec, LogicBit,
    SLiteral, SPayload, UnaryOp,
};
use crate::bignum::{
    abs, bigint_add, bigint_bit, bigint_div, bigint_from_biguint, bigint_from_usize,
    bigint_magnitude, bigint_mul, bigint_neg, bigint_rem, bigint_signum, bigint_small, bigint_sub,
    bigint_to_usize, bigint_value, biguint_bit, biguint_bits, biguint_modpow, biguint_pow2,
    biguint_value, bit_len, trunc_div, trunc_rem,
};
use num_bigint::BigInt;
use vstd::arithmetic::power::pow;
use vstd::arithmetic::power2::{lemma_pow2_pos, lemma_pow2_unfold, pow2};
use vstd::prelude::*;

verus! {

// ----- truth tables -----
/// A bit that is `0` or `1`, neither `x` nor `z`.
pub open spec fn is_known(b: LogicBit) -> bool {
    b == LogicBit::Zero || b == LogicBit::One
}

/// `&` on one bit pair: a `0` on either side decides `0`; `x`/`z` otherwise give `x`.
pub open spec fn and_bit(a: LogicBit, b: LogicBit) -> LogicBit {
    if a == LogicBit::Zero || b == LogicBit::Zero {
        LogicBit::Zero
    } else if a == LogicBit::One && b == LogicBit::One {
        LogicBit::One
    } else {
        LogicBit::X
    }
}

/// `|` on one bit pair: a `1` on either side decides `1`; `x`/`z` otherwise give `x`.
pub open spec fn or_bit(a: LogicBit, b: LogicBit) -> LogicBit {
    if a == LogicBit::One || b == LogicBit::One {
        LogicBit::One
    } else if a == LogicBit::Zero && b == LogicBit::Zero {
        LogicBit::Zero
    } else {
        LogicBit::X
    }
}

/// `^` on one bit pair: any `x`/`z` gives `x`.
pub open spec fn xor_bit(a: LogicBit, b: LogicBit) -> LogicBit {
    if is_known(a) && is_known(b) {
        if a == b {
            LogicBit::Zero
        } else {
            LogicBit::One
        }
    } else {
        LogicBit::X
    }
}

/// `~` on one bit: `x` and `z` give `x`.
pub open spec fn not_bit(a: LogicBit) -> LogicBit {
    match a {
        LogicBit::Zero => LogicBit::One,
        LogicBit::One => LogicBit::Zero,
        _ => LogicBit::X,
    }
}

pub fn bitwise_and_bits(a: LogicBit, b: LogicBit) -> (r: LogicBit)
    ensures
        r == and_bit(a, b),
{
    match (a, b) {
        (LogicBit::Zero, _) | (_, LogicBit::Zero) => LogicBit::Zero,
        (LogicBit::One, LogicBit::One) => LogicBit::One,
        _ => LogicBit::X,
    }
}

pub fn bitwise_or_bits(a: LogicBit, b: LogicBit) -> (r: LogicBit)
    ensures
        r == or_bit(a, b),
{
    match (a, b) {
        (LogicBit::One, _) | (_, LogicBit::One) => LogicBit::One,
        (LogicBit::Zero, LogicBit::Zero) => LogicBit::Zero,
        _ => LogicBit::X,
    }
}

pub fn bitwise_xor_bits(a: LogicBit, b: LogicBit) -> (r: LogicBit)
    ensures
        r == xor_bit(a, b),
{
    match (a, b) {
        (LogicBit::Zero, LogicBit::Zero) | (LogicBit::One, LogicBit::One) => LogicBit::Zero,
        (LogicBit::Zero, LogicBit::One) | (LogicBit::One, LogicBit::Zero) => LogicBit::One,
        _ => LogicBit::X,
    }
}

pub fn bitwise_xnor_bits(a: LogicBit, b: LogicBit) -> (r: LogicBit)
    ensures
        r == not_bit(xor_bit(a, b)),
{
    bitwise_not_bit(bitwise_xor_bits(a, b))
}

pub fn bitwise_not_bit(a: LogicBit) -> (r: LogicBit)
    ensures
        r == not_bit(a),
{
    match a {
        LogicBit::Zero => LogicBit::One,
        LogicBit::One => LogicBit::Zero,
        _ => LogicBit::X,
    }
}

// ----- reductions -----
pub open spec fn is_reduction(op: UnaryOp) -> bool {
    op == UnaryOp::ReductionAnd || op == UnaryOp::ReductionNand || op == UnaryOp::ReductionOr
        || op == UnaryOp::ReductionNor || op == UnaryOp::ReductionXor || op
        == UnaryOp::ReductionXnor
}

pub open spec fn and_fold(bits: Seq<LogicBit>) -> LogicBit {
    bits.fold_left(LogicBit::One, |acc: LogicBit, b: LogicBit| and_bit(acc, b))
}

pub open spec fn or_fold(bits: Seq<LogicBit>) -> LogicBit {
    bits.fold_left(LogicBit::Zero, |acc: LogicBit, b: LogicBit| or_bit(acc, b))
}

pub open spec fn xor_fold(bits: Seq<LogicBit>) -> LogicBit {
    bits.fold_left(LogicBit::Zero, |acc: LogicBit, b: LogicBit| xor_bit(acc, b))
}

/// A reduction operator applied to `bits` (LRM 5.1.11): the binary table
/// folded over all bits from an identity of `1` (AND) or `0` (OR, XOR); the
/// negated forms invert the fold.
pub open spec fn reduce(op: UnaryOp, bits: Seq<LogicBit>) -> LogicBit {
    let folded = if op == UnaryOp::ReductionAnd || op == UnaryOp::ReductionNand {
        and_fold(bits)
    } else if op == UnaryOp::ReductionOr || op == UnaryOp::ReductionNor {
        or_fold(bits)
    } else {
        xor_fold(bits)
    };
    if op == UnaryOp::ReductionNand || op == UnaryOp::ReductionNor || op
        == UnaryOp::ReductionXnor {
        not_bit(folded)
    } else {
        folded
    }
}

/// The reduction operator `op` over `bits`.
pub fn reduce_bits(op: UnaryOp, bits: &[LogicBit]) -> (r: LogicBit)
    requires
        is_reduction(op),
    ensures
        r == reduce(op, bits@),
{
    let and_like = match op {
        UnaryOp::ReductionAnd | UnaryOp::ReductionNand => true,
        _ => false,
    };
    let or_like = match op {
        UnaryOp::ReductionOr | UnaryOp::ReductionNor => true,
        _ => false,
    };
    let mut acc = if and_like {
        LogicBit::One
    } else {
        LogicBit::Zero
    };
    let mut i: usize = 0;
    while i < bits.len()
        invariant
            i <= bits@.len(),
            and_like ==> acc == and_fold(bits@.take(i as int)),
            !and_like && or_like ==> acc == or_fold(bits@.take(i as int)),
            !and_like && !or_like ==> acc == xor_fold(bits@.take(i as int)),
            and_like == (op == UnaryOp::ReductionAnd || op == UnaryOp::ReductionNand),
            or_like == (op == UnaryOp::ReductionOr || op == UnaryOp::ReductionNor),
        decreases bits@.len() - i,
    {
        assert(bits@.take(i + 1).drop_last() =~= bits@.take(i as int));
        let b = bits[i];
        acc = if and_like {
            bitwise_and_bits(acc, b)
        } else if or_like {
            bitwise_or_bits(acc, b)
        } else {
            bitwise_xor_bits(acc, b)
        };
        i = i + 1;
    }
    assert(bits@.take(i as int) =~= bits@);
    match op {
        UnaryOp::ReductionNand | UnaryOp::ReductionNor | UnaryOp::ReductionXnor => bitwise_not_bit(
            acc,
        ),
        _ => acc,
    }
}

// ----- expression shape -----
/// The width, signedness and display base of an expression.
#[derive(Clone, Copy, Debug, PartialEq, Eq, Structural)]
pub struct ExprMeta {
    pub width: usize,
    pub signed: bool,
    pub base: Base,
}

pub open spec fn width_and_sign_from_both(op: BinaryOp) -> bool {
    op == BinaryOp::Add || op == BinaryOp::Subtract || op == BinaryOp::Multiply || op
        == BinaryOp::Divide || op == BinaryOp::Modulus || op == BinaryOp::BitwiseAnd || op
        == BinaryOp::BitwiseOr || op == BinaryOp::BitwiseXor || op == BinaryOp::BitwiseXnor
}

pub open spec fn width_and_sign_from_lhs(op: BinaryOp) -> bool {
    op == BinaryOp::Power || op == BinaryOp::LogicalShiftLeft || op == BinaryOp::LogicalShiftRight
        || op == BinaryOp::ArithmeticShiftLeft || op == BinaryOp::ArithmeticShiftRight
}

/// The shape of `lhs op rhs` (LRM 5.4.1, 5.5.1): arithmetic and bitwise
/// operators take the wider width and are signed only when both sides are;
/// power and shifts take the left side's; comparisons and logical operators
/// give one unsigned bit shown in binary. The base is the left side's.
pub open spec fn binary_meta(op: BinaryOp, lhs: ExprMeta, rhs: ExprMeta) -> ExprMeta {
    if width_and_sign_from_both(op) {
        ExprMeta {
            width: if lhs.width >= rhs.width {
                lhs.width
            } else {
                rhs.width
            },
            signed: lhs.signed && rhs.signed,
            base: lhs.base,
        }
    } else if width_and_sign_from_lhs(op) {
        ExprMeta { width: lhs.width, signed: lhs.signed, base: lhs.base }
    } else {
        ExprMeta { width: 1, signed: false, base: Base::Binary }
    }
}

pub fn combine_binary_meta(op: BinaryOp, lhs_meta: ExprMeta, rhs_meta: ExprMeta) -> (r: ExprMeta)
    ensures
        r == binary_meta(op, lhs_meta, rhs_meta),
{
    match op {
        BinaryOp::Add | BinaryOp::Subtract | BinaryOp::Multiply | BinaryOp::Divide
        | BinaryOp::Modulus | BinaryOp::BitwiseAnd | BinaryOp::BitwiseOr | BinaryOp::BitwiseXor
        | BinaryOp::BitwiseXnor => ExprMeta {
            width: if lhs_meta.width >= rhs_meta.width {
                lhs_meta.width
            } else {
                rhs_meta.width
            },
            signed: lhs_meta.signed && rhs_meta.signed,
            base: lhs_meta.base,
        },
        BinaryOp::Power | BinaryOp::LogicalShiftLeft | BinaryOp::LogicalShiftRight
        | BinaryOp::ArithmeticShiftLeft | BinaryOp::ArithmeticShiftRight => ExprMeta {
            width: lhs_meta.width,
            signed: lhs_meta.signed,
            base: lhs_meta.base,
        },
        _ => ExprMeta { width: 1, signed: false, base: Base::Binary },
    }
}

// ----- integer values -----
/// Some bit of `bits` is `x` or `z`.
pub open spec fn has_unknown(bits: Seq<LogicBit>) -> bool {
    exists|i: int| 0 <= i < bits.len() && !is_known(#[trigger] bits[i])
}

/// How a value is shown: as a number in its base, or as the text its bytes spell.
#[derive(Clone, Copy, Debug, PartialEq, Eq, Structural)]
pub enum DisplayStyle {
    Base,
    String,
}

/// A four-state integer value: `width` bits, least significant first, with
/// the signedness and display base it carries through an expression.
#[derive(Clone, Debug, PartialEq, Eq)]
pub struct IntegerValue {
    pub width: usize,
    pub signed: bool,
    pub base: Base,
    /// Set when the base came from the source text and outranks a context's.
    pub base_locked: bool,
    pub display_style: DisplayStyle,
    pub bits: Vec<LogicBit>,
    /// Set for an unsized literal, whose width is indefinite (LRM 5.1.14).
    pub unsized_literal: bool,
}

impl IntegerValue {
    /// The bit vector has exactly `width` bits.
    pub open spec fn wf(&self) -> bool {
        self.bits@.len() == self.width
    }

    /// Some bit is `x` or `z`.
    pub open spec fn spec_has_unknown_bits(&self) -> bool {
        has_unknown(self.bits@)
    }

    /// Whether some bit is `x` or `z`.
    pub fn has_unknown_bits(&self) -> (r: bool)
        ensures
            r == self.spec_has_unknown_bits(),
    {
        let mut i: usize = 0;
        while i < self.bits.len()
            invariant
                i <= self.bits@.len(),
                forall|j: int| 0 <= j < i ==> is_known(#[trigger] self.bits@[j]),
            decreases self.bits@.len() - i,
        {
            match self.bits[i] {
                LogicBit::Zero | LogicBit::One => {},
                _ => {
                    return true;
                },
            }
            i = i + 1;
        }
        false
    }
}

/// Bit `i` of the natural number `n`.
pub open spec fn nat_bit(n: nat, i: nat) -> LogicBit {
    if (n / pow2(i)) % 2 == 1 {
        LogicBit::One
    } else {
        LogicBit::Zero
    }
}

/// The `width` bits a literal stands for: the low bits of its magnitude, or
/// its written bits cut to `width` and extended with its fill bit.
pub open spec fn literal_bits(l: SLiteral) -> Seq<LogicBit> {
    match l.payload {
        SPayload::Numeric { magnitude } => Seq::new(
            l.width as nat,
            |i: int| nat_bit(magnitude, i as nat),
        ),
        SPayload::Bits { low_bits, fill } => Seq::new(
            l.width as nat,
            |i: int|
                if i < low_bits.len() {
                    low_bits[i]
                } else {
                    fill
                },
        ),
    }
}

impl LiteralSpec {
    /// The literal as a value: its `width` bits, with the literal's sign, base
    /// (locked, since the text wrote it) and unsized flag.
    pub fn materialize(&self) -> (r: IntegerValue)
        ensures
            r.wf(),
            r.width == self.width,
            r.signed == self.signed,
            r.base == self.base,
            r.base_locked,
            r.display_style == DisplayStyle::Base,
            r.unsized_literal == self.unsized_literal,
            r.bits@ == literal_bits(self@),
    {
        let mut bits: Vec<LogicBit> = Vec::new();
        let mut i: usize = 0;
        while i < self.width
            invariant
                i <= self.width,
                bits@.len() == i,
                forall|j: int| 0 <= j < i ==> bits@[j] == #[trigger] literal_bits(self@)[j],
            decreases self.width - i,
        {
            let b = match &self.payload {
                LiteralPayload::Numeric { magnitude } => {
                    if biguint_bit(magnitude, i as u64) {
                        LogicBit::One
                    } else {
                        LogicBit::Zero
                    }
                },
                LiteralPayload::Bits { low_bits, fill } => {
                    if i < low_bits.len() {
                        low_bits[i]
                    } else {
                        *fill
                    }
                },
            };
            bits.push(b);
            i = i + 1;
        }
        assert(bits@ =~= literal_bits(self@));
        IntegerValue {
            width: self.width,
            signed: self.signed,
            base: self.base,
            base_locked: true,
            display_style: DisplayStyle::Base,
            bits,
            unsized_literal: self.unsized_literal,
        }
    }
}

/// The logical value of a bit vector (LRM 5.1.9): `1` if some bit is `1`,
/// `0` if every bit is `0`, `x` otherwise.
pub open spec fn logical(bits: Seq<LogicBit>) -> LogicBit {
    if exists|i: int| 0 <= i < bits.len() && #[trigger] bits[i] == LogicBit::One {
        LogicBit::One
    } else if forall|i: int| 0 <= i < bits.len() ==> #[trigger] bits[i] == LogicBit::Zero {
        LogicBit::Zero
    } else {
        LogicBit::X
    }
}

/// The value an operand of `!`, `&&` or `||` reduces to.
pub fn logical_value(value: &IntegerValue) -> (r: LogicBit)
    ensures
        r == logical(value.bits@),
{
    let bits = &value.bits;
    let mut all_zero = true;
    let mut i: usize = 0;
    while i < bits.len()
        invariant
            i <= bits@.len(),
            bits@ == value.bits@,
            forall|j: int| 0 <= j < i ==> #[trigger] bits@[j] != LogicBit::One,
            all_zero == (forall|j: int| 0 <= j < i ==> #[trigger] bits@[j] == LogicBit::Zero),
        decreases bits@.len() - i,
    {
        match bits[i] {
            LogicBit::One => {
                assert(value.bits@[i as int] == LogicBit::One);
                return LogicBit::One;
            },
            LogicBit::Zero => {},
            _ => {
                all_zero = false;
            },
        }
        i = i + 1;
    }
    if all_zero {
        LogicBit::Zero
    } else {
        LogicBit::X
    }
}

/// A concatenation shows as text only when every operand of nonzero width
/// shows as text and is a whole number of bytes, and there is at least one.
pub open spec fn concat_style(items: Seq<IntegerValue>) -> DisplayStyle {
    if (forall|i: int|
        0 <= i < items.len() && #[trigger] items[i].width != 0 ==> items[i].display_style
            == DisplayStyle::String && items[i].width % 8 == 0) && (exists|i: int|
        0 <= i < items.len() && #[trigger] items[i].width != 0) {
        DisplayStyle::String
    } else {
        DisplayStyle::Base
    }
}

/// The display style of a concatenation of `items`.
pub fn concatenated_display_style(items: &[IntegerValue]) -> (r: DisplayStyle)
    ensures
        r == concat_style(items@),
{
    let mut saw_string_bytes = false;
    let mut i: usize = 0;
    while i < items.len()
        invariant
            i <= items@.len(),
            forall|j: int|
                0 <= j < i && #[trigger] items@[j].width != 0 ==> items@[j].display_style
                    == DisplayStyle::String && items@[j].width % 8 == 0,
            saw_string_bytes == (exists|j: int| 0 <= j < i && #[trigger] items@[j].width != 0),
        decreases items@.len() - i,
    {
        let item = &items[i];
        if item.width != 0 {
            if item.display_style != DisplayStyle::String || item.width % 8 != 0 {
                return DisplayStyle::Base;
            }
            saw_string_bytes = true;
        }
        i = i + 1;
    }
    if saw_string_bytes {
        DisplayStyle::String
    } else {
        DisplayStyle::Base
    }
}

pub open spec fn bool_bit(b: bool) -> LogicBit {
    if b {
        LogicBit::One
    } else {
        LogicBit::Zero
    }
}

/// Some position below both lengths holds `0` on one side and `1` on the other.
pub open spec fn definite_mismatch(l: Seq<LogicBit>, r: Seq<LogicBit>) -> bool {
    exists|i: int|
        0 <= i < l.len() && i < r.len() && ((#[trigger] l[i] == LogicBit::Zero && r[i]
            == LogicBit::One) || (l[i] == LogicBit::One && r[i] == LogicBit::Zero))
}

/// Some position below both lengths holds `x` or `z` on either side.
pub open spec fn some_unknown(l: Seq<LogicBit>, r: Seq<LogicBit>) -> bool {
    exists|i: int| 0 <= i < l.len() && i < r.len() && (!is_known(#[trigger] l[i]) || !is_known(r[i]))
}

pub open spec fn is_equality(op: BinaryOp) -> bool {
    op == BinaryOp::Equal || op == BinaryOp::NotEqual || op == BinaryOp::CaseEqual || op
        == BinaryOp::CaseNotEqual
}

/// The one-bit result of an equality operator on two bit vectors (LRM 5.1.8):
/// `==` / `!=` give `x` when no position differs definitely but some bit is
/// unknown; `===` / `!==` compare the four-state bits exactly.
pub open spec fn equality(op: BinaryOp, l: Seq<LogicBit>, r: Seq<LogicBit>) -> LogicBit {
    if op == BinaryOp::Equal || op == BinaryOp::NotEqual {
        if !definite_mismatch(l, r) && some_unknown(l, r) {
            LogicBit::X
        } else {
            bool_bit((op == BinaryOp::Equal) == !definite_mismatch(l, r))
        }
    } else {
        bool_bit((op == BinaryOp::CaseEqual) == (l == r))
    }
}

/// The bit that the equality operator `op` gives for `lhs` and `rhs`.
pub fn equality_bit(op: BinaryOp, lhs: &IntegerValue, rhs: &IntegerValue) -> (r: LogicBit)
    requires
        is_equality(op),
    ensures
        r == equality(op, lhs.bits@, rhs.bits@),
{
    let l = &lhs.bits;
    let rb = &rhs.bits;
    match op {
        BinaryOp::Equal | BinaryOp::NotEqual => {
            let mut mismatch = false;
            let mut unknown = false;
            let mut i: usize = 0;
            while i < l.len() && i < rb.len()
                invariant
                    i <= l@.len(),
                    i <= rb@.len(),
                    mismatch == (exists|j: int|
                        0 <= j < i && ((#[trigger] l@[j] == LogicBit::Zero && rb@[j]
                            == LogicBit::One) || (l@[j] == LogicBit::One && rb@[j]
                            == LogicBit::Zero))),
                    unknown == (exists|j: int|
                        0 <= j < i && (!is_known(#[trigger] l@[j]) || !is_known(rb@[j]))),
                decreases l@.len() - i,
            {
                match (l[i], rb[i]) {
                    (LogicBit::Zero, LogicBit::One) | (LogicBit::One, LogicBit::Zero) => {
                        mismatch = true;
                    },
                    (LogicBit::X, _) | (LogicBit::Z, _) | (_, LogicBit::X) | (_, LogicBit::Z) => {
                        unknown = true;
                    },
                    _ => {},
                }
                i = i + 1;
            }
            if !mismatch && unknown {
                return LogicBit::X;
            }
            let equal = !mismatch;
            let result = match op {
                BinaryOp::Equal => equal,
                _ => !equal,
            };
            if result {
                LogicBit::One
            } else {
                LogicBit::Zero
            }
        },
        _ => {
            let mut equal = l.len() == rb.len();
            let mut i: usize = 0;
            while equal && i < l.len()
                invariant
                    i <= l@.len(),
                    equal ==> l@.len() == rb@.len(),
                    equal ==> forall|j: int| 0 <= j < i ==> #[trigger] l@[j] == rb@[j],
                    !equal ==> l@ != rb@,
                decreases l@.len() - i,
            {
                if l[i] != rb[i] {
                    equal = false;
                }
                i = i + 1;
            }
            if equal {
                assert(l@ =~= rb@);
            }
            let result = match op {
                BinaryOp::CaseEqual => equal,
                _ => !equal,
            };
            if result {
                LogicBit::One
            } else {
                LogicBit::Zero
            }
        },
    }
}

// ----- vector combiners -----
pub open spec fn is_bitwise(op: BinaryOp) -> bool {
    op == BinaryOp::BitwiseAnd || op == BinaryOp::BitwiseOr || op == BinaryOp::BitwiseXor || op
        == BinaryOp::BitwiseXnor
}

/// The table of the bitwise operator `op` on one bit pair.
pub open spec fn bitwise_table(op: BinaryOp, a: LogicBit, b: LogicBit) -> LogicBit {
    if op == BinaryOp::BitwiseAnd {
        and_bit(a, b)
    } else if op == BinaryOp::BitwiseOr {
        or_bit(a, b)
    } else if op == BinaryOp::BitwiseXor {
        xor_bit(a, b)
    } else {
        not_bit(xor_bit(a, b))
    }
}

pub open spec fn min_len(l: Seq<LogicBit>, r: Seq<LogicBit>) -> nat {
    if l.len() <= r.len() {
        l.len()
    } else {
        r.len()
    }
}

/// `lhs op rhs` bit by bit, over the positions both sides have.
pub fn bitwise_vector(op: BinaryOp, lhs: &[LogicBit], rhs: &[LogicBit]) -> (r: Vec<LogicBit>)
    requires
        is_bitwise(op),
    ensures
        r@.len() == min_len(lhs@, rhs@),
        forall|i: int| 0 <= i < r@.len() ==> #[trigger] r@[i] == bitwise_table(op, lhs@[i], rhs@[i]),
{
    let mut out: Vec<LogicBit> = Vec::new();
    let mut i: usize = 0;
    while i < lhs.len() && i < rhs.len()
        invariant
            i <= lhs@.len(),
            i <= rhs@.len(),
            out@.len() == i,
            forall|j: int| 0 <= j < i ==> #[trigger] out@[j] == bitwise_table(op, lhs@[j], rhs@[j]),
        decreases lhs@.len() - i,
    {
        let b = match op {
            BinaryOp::BitwiseAnd => bitwise_and_bits(lhs[i], rhs[i]),
            BinaryOp::BitwiseOr => bitwise_or_bits(lhs[i], rhs[i]),
            BinaryOp::BitwiseXor => bitwise_xor_bits(lhs[i], rhs[i]),
            _ => bitwise_xnor_bits(lhs[i], rhs[i]),
        };
        out.push(b);
        i = i + 1;
    }
    out
}

/// `~` applied to every bit.
pub fn not_vector(bits: &[LogicBit]) -> (r: Vec<LogicBit>)
    ensures
        r@.len() == bits@.len(),
        forall|i: int| 0 <= i < r@.len() ==> #[trigger] r@[i] == not_bit(bits@[i]),
{
    let mut out: Vec<LogicBit> = Vec::new();
    let mut i: usize = 0;
    while i < bits.len()
        invariant
            i <= bits@.len(),
            out@.len() == i,
            forall|j: int| 0 <= j < i ==> #[trigger] out@[j] == not_bit(bits@[j]),
        decreases bits@.len() - i,
    {
        out.push(bitwise_not_bit(bits[i]));
        i = i + 1;
    }
    out
}

/// The bit a conditional with an unknown condition gives at one position:
/// the arms' common bit, or `x` where they differ (LRM 5.1.13).
pub open spec fn merge_bit(t: LogicBit, e: LogicBit) -> LogicBit {
    if t == e {
        t
    } else {
        LogicBit::X
    }
}

/// Both arms of a conditional whose condition is `x` or `z`, merged bit by bit.
pub fn merge_conditional(then_bits: &[LogicBit], else_bits: &[LogicBit]) -> (r: Vec<LogicBit>)
    ensures
        r@.len() == min_len(then_bits@, else_bits@),
        forall|i: int| 0 <= i < r@.len() ==> #[trigger] r@[i] == merge_bit(then_bits@[i], else_bits@[i]),
{
    let mut out: Vec<LogicBit> = Vec::new();
    let mut i: usize = 0;
    while i < then_bits.len() && i < else_bits.len()
        invariant
            i <= then_bits@.len(),
            i <= else_bits@.len(),
            out@.len() == i,
            forall|j: int|
                0 <= j < i ==> #[trigger] out@[j] == merge_bit(then_bits@[j], else_bits@[j]),
        decreases then_bits@.len() - i,
    {
        let t = then_bits[i];
        let e = else_bits[i];
        out.push(if t == e { t } else { LogicBit::X });
        i = i + 1;
    }
    out
}

/// `!` on a logical value.
pub open spec fn logical_not(a: LogicBit) -> LogicBit {
    match a {
        LogicBit::Zero => LogicBit::One,
        LogicBit::One => LogicBit::Zero,
        _ => LogicBit::X,
    }
}

/// `&&` and `||` on the logical values of their operands (LRM 5.1.9).
pub open spec fn logical_binary(op: BinaryOp, l: Seq<LogicBit>, r: Seq<LogicBit>) -> LogicBit {
    if op == BinaryOp::LogicalAnd {
        and_bit(logical(l), logical(r))
    } else {
        or_bit(logical(l), logical(r))
    }
}

/// `!value`.
pub fn logical_not_bit(value: &IntegerValue) -> (r: LogicBit)
    ensures
        r == logical_not(logical(value.bits@)),
{
    match logical_value(value) {
        LogicBit::One => LogicBit::Zero,
        LogicBit::Zero => LogicBit::One,
        _ => LogicBit::X,
    }
}

/// `lhs && rhs` or `lhs || rhs`.
pub fn logical_binary_bit(op: BinaryOp, lhs: &IntegerValue, rhs: &IntegerValue) -> (r: LogicBit)
    requires
        op == BinaryOp::LogicalAnd || op == BinaryOp::LogicalOr,
    ensures
        r == logical_binary(op, lhs.bits@, rhs.bits@),
{
    let a = logical_value(lhs);
    let b = logical_value(rhs);
    match op {
        BinaryOp::LogicalAnd => bitwise_and_bits(a, b),
        _ => bitwise_or_bits(a, b),
    }
}

/// The shape an operand is evaluated in under an outer context (LRM 5.5.2):
/// the wider of the two widths, the context's signedness, its own base.
pub open spec fn in_context(meta: ExprMeta, ctx: Option<ExprMeta>) -> ExprMeta {
    match ctx {
        Some(c) => ExprMeta {
            width: if c.width >= meta.width {
                c.width
            } else {
                meta.width
            },
            signed: c.signed,
            base: meta.base,
        },
        None => meta,
    }
}

pub fn effective_meta(meta: ExprMeta, ctx: Option<ExprMeta>) -> (r: ExprMeta)
    ensures
        r == in_context(meta, ctx),
{
    match ctx {
        Some(c) => ExprMeta {
            width: if c.width >= meta.width {
                c.width
            } else {
                meta.width
            },
            signed: c.signed,
            base: meta.base,
        },
        None => meta,
    }
}

/// The shape of `cond ? then : else`: the wider arm's width, signed only
/// when both arms are, the `then` arm's base.
pub open spec fn conditional_shape(then_meta: ExprMeta, else_meta: ExprMeta) -> ExprMeta {
    ExprMeta {
        width: if then_meta.width >= else_meta.width {
            then_meta.width
        } else {
            else_meta.width
        },
        signed: then_meta.signed && else_meta.signed,
        base: then_meta.base,
    }
}

pub fn conditional_meta(then_meta: ExprMeta, else_meta: ExprMeta) -> (r: ExprMeta)
    ensures
        r == conditional_shape(then_meta, else_meta),
{
    ExprMeta {
        width: if then_meta.width >= else_meta.width {
            then_meta.width
        } else {
            else_meta.width
        },
        signed: then_meta.signed && else_meta.signed,
        base: then_meta.base,
    }
}

/// `a + b`, held at `usize::MAX`.
pub open spec fn sat_add(a: int, b: int) -> int {
    if a + b > usize::MAX {
        usize::MAX as int
    } else {
        a + b
    }
}

/// The widths of `items` summed left to right, each sum held at `usize::MAX`.
pub open spec fn summed_width(items: Seq<ExprMeta>) -> int
    decreases items.len(),
{
    if items.len() == 0 {
        0
    } else {
        sat_add(summed_width(items.drop_last()), items.last().width as int)
    }
}

proof fn lemma_summed_width_range(items: Seq<ExprMeta>)
    ensures
        0 <= summed_width(items) <= usize::MAX,
    decreases items.len(),
{
    if items.len() > 0 {
        lemma_summed_width_range(items.drop_last());
    }
}

/// The shape of a concatenation of operands shaped `items` (LRM 5.1.14):
/// the summed width, unsigned, in the leftmost operand's base (binary when
/// there is none).
pub open spec fn concat_shape(items: Seq<ExprMeta>) -> ExprMeta {
    ExprMeta {
        width: summed_width(items) as usize,
        signed: false,
        base: if items.len() > 0 {
            items[0].base
        } else {
            Base::Binary
        },
    }
}

pub fn concatenation_meta(items: &[ExprMeta]) -> (r: ExprMeta)
    ensures
        r == concat_shape(items@),
{
    let mut total: usize = 0;
    let mut i: usize = 0;
    while i < items.len()
        invariant
            i <= items@.len(),
            total as int == summed_width(items@.take(i as int)),
        decreases items@.len() - i,
    {
        assert(items@.take(i + 1).drop_last() =~= items@.take(i as int));
        total = total.saturating_add(items[i].width);
        i = i + 1;
    }
    assert(items@.take(i as int) =~= items@);
    ExprMeta {
        width: total,
        signed: false,
        base: if items.len() > 0 {
            items[0].base
        } else {
            Base::Binary
        },
    }
}

/// The shape of `{count{items}}`: the concatenation's width times the count,
/// held at `usize::MAX`.
pub open spec fn replication_shape(items: Seq<ExprMeta>, count: nat) -> ExprMeta {
    let w = summed_width(items) * count;
    ExprMeta {
        width: if w > usize::MAX {
            usize::MAX
        } else {
            w as usize
        },
        signed: false,
        base: concat_shape(items).base,
    }
}

pub fn replication_meta(items: &[ExprMeta], count: usize) -> (r: ExprMeta)
    ensures
        r == replication_shape(items@, count as nat),
{
    let inner = concatenation_meta(items);
    proof {
        lemma_summed_width_range(items@);
    }
    let width = match inner.width.checked_mul(count) {
        Some(w) => w,
        None => usize::MAX,
    };
    ExprMeta { width, signed: false, base: inner.base }
}

/// The shape of `$signed(x)` / `$unsigned(x)`: `x`'s width and base, the new signedness.
pub fn sign_cast_meta(arg: ExprMeta, signed: bool) -> (r: ExprMeta)
    ensures
        r == (ExprMeta { width: arg.width, signed, base: arg.base }),
{
    ExprMeta { width: arg.width, signed, base: arg.base }
}

/// The shape of a base cast of `x`: `x`'s width and signedness, the new base.
pub fn base_cast_meta(arg: ExprMeta, base: Base) -> (r: ExprMeta)
    ensures
        r == (ExprMeta { width: arg.width, signed: arg.signed, base }),
{
    ExprMeta { width: arg.width, signed: arg.signed, base }
}

// ----- relational operators -----
/// The number a bit vector denotes read as unsigned: bit `i` weighs `2^i`
/// (bits other than `1` count as `0`).
pub open spec fn unsigned_value(bits: Seq<LogicBit>) -> int
    decreases bits.len(),
{
    if bits.len() == 0 {
        0
    } else {
        unsigned_value(bits.drop_last()) + if bits.last() == LogicBit::One {
            pow2((bits.len() - 1) as nat) as int
        } else {
            0
        }
    }
}

/// The number a bit vector denotes, in two's complement when `signed`.
pub open spec fn int_value(bits: Seq<LogicBit>, signed: bool) -> int {
    if signed && bits.len() > 0 && bits.last() == LogicBit::One {
        unsigned_value(bits) - pow2(bits.len() as nat)
    } else {
        unsigned_value(bits)
    }
}

pub open spec fn is_relational(op: BinaryOp) -> bool {
    op == BinaryOp::LessThan || op == BinaryOp::GreaterThan || op == BinaryOp::LessThanOrEqual
        || op == BinaryOp::GreaterThanOrEqual
}

/// The one-bit result of `<`, `>`, `<=` or `>=` (LRM 5.1.7): `x` when either
/// side has an `x` or `z` bit, else the comparison of the numbers the two
/// sides denote, both read as signed or both as unsigned.
pub open spec fn relational(op: BinaryOp, l: Seq<LogicBit>, r: Seq<LogicBit>, signed: bool) -> LogicBit {
    if has_unknown(l) || has_unknown(r) {
        LogicBit::X
    } else {
        let a = int_value(l, signed);
        let b = int_value(r, signed);
        bool_bit(
            if op == BinaryOp::LessThan {
                a < b
            } else if op == BinaryOp::GreaterThan {
                a > b
            } else if op == BinaryOp::LessThanOrEqual {
                a <= b
            } else {
                a >= b
            },
        )
    }
}

/// Bit `i` of `bits` extended past its width: with its top bit when signed,
/// with `0` otherwise.
pub open spec fn ext_bit(bits: Seq<LogicBit>, signed: bool, i: int) -> LogicBit {
    if i < bits.len() {
        bits[i]
    } else if signed && bits.len() > 0 {
        bits.last()
    } else {
        LogicBit::Zero
    }
}

pub open spec fn extended(bits: Seq<LogicBit>, signed: bool, n: nat) -> Seq<LogicBit> {
    Seq::new(n, |i: int| ext_bit(bits, signed, i))
}

pub proof fn lemma_unsigned_bound(bits: Seq<LogicBit>)
    ensures
        0 <= unsigned_value(bits) < pow2(bits.len() as nat),
    decreases bits.len(),
{
    if bits.len() == 0 {
        lemma_pow2_pos(0);
    } else {
        lemma_unsigned_bound(bits.drop_last());
        lemma_pow2_unfold(bits.len() as nat);
    }
}

/// Extending a vector (with its sign bit when signed) keeps its number.
pub proof fn lemma_extended_value(bits: Seq<LogicBit>, signed: bool, n: nat)
    requires
        n >= bits.len(),
    ensures
        int_value(extended(bits, signed, n), signed) == int_value(bits, signed),
        extended(bits, signed, n).len() == n,
    decreases n,
{
    let e = extended(bits, signed, n);
    if n == bits.len() {
        assert(e =~= bits);
    } else {
        let d = extended(bits, signed, (n - 1) as nat);
        lemma_extended_value(bits, signed, (n - 1) as nat);
        assert(e.drop_last() =~= d);
        lemma_pow2_unfold(n);
        if signed && bits.len() > 0 && bits.last() == LogicBit::One {
            assert(d.last() == LogicBit::One);
        } else if bits.len() > 0 {
            assert(d.last() == ext_bit(bits, signed, n - 2));
        }
    }
}

/// Sign of `a - b`, as -1, 0 or 1.
pub open spec fn sign_of(a: int, b: int) -> int {
    if a < b {
        -1
    } else if a > b {
        1
    } else {
        0
    }
}

fn ext_bit_at(bits: &Vec<LogicBit>, signed: bool, i: usize) -> (r: LogicBit)
    ensures
        r == ext_bit(bits@, signed, i as int),
{
    if i < bits.len() {
        bits[i]
    } else if signed && bits.len() > 0 {
        bits[bits.len() - 1]
    } else {
        LogicBit::Zero
    }
}

/// The relational operator `op` on `lhs` and `rhs`, both read as signed when
/// `signed` and as unsigned otherwise.
pub fn relational_bit(op: BinaryOp, lhs: &IntegerValue, rhs: &IntegerValue, signed: bool) -> (r: LogicBit)
    requires
        is_relational(op),
    ensures
        r == relational(op, lhs.bits@, rhs.bits@, signed),
{
    if lhs.has_unknown_bits() || rhs.has_unknown_bits() {
        return LogicBit::X;
    }
    let l = &lhs.bits;
    let rb = &rhs.bits;
    let n: usize = if l.len() >= rb.len() {
        l.len()
    } else {
        rb.len()
    };
    let ghost el = extended(l@, signed, n as nat);
    let ghost er = extended(rb@, signed, n as nat);
    let mut c: i8 = 0;
    let mut i: usize = 0;
    while i < n
        invariant
            i <= n,
            el == extended(l@, signed, n as nat),
            er == extended(rb@, signed, n as nat),
            c == sign_of(unsigned_value(el.take(i as int)), unsigned_value(er.take(i as int))),
        decreases n - i,
    {
        let a = ext_bit_at(l, signed, i);
        let b = ext_bit_at(rb, signed, i);
        proof {
            let pl = el.take(i as int);
            let pr = er.take(i as int);
            assert(el.take(i + 1).drop_last() =~= pl);
            assert(er.take(i + 1).drop_last() =~= pr);
            assert(el.take(i + 1).last() == a);
            assert(er.take(i + 1).last() == b);
            lemma_unsigned_bound(pl);
            lemma_unsigned_bound(pr);
        }
        if a == LogicBit::One && b != LogicBit::One {
            c = 1;
        } else if a != LogicBit::One && b == LogicBit::One {
            c = -1;
        }
        i = i + 1;
    }
    proof {
        assert(el.take(n as int) =~= el);
        assert(er.take(n as int) =~= er);
        lemma_extended_value(l@, signed, n as nat);
        lemma_extended_value(rb@, signed, n as nat);
        lemma_unsigned_bound(el);
        lemma_unsigned_bound(er);
    }
    if signed && n > 0 {
        let ta = ext_bit_at(l, signed, n - 1);
        let tb = ext_bit_at(rb, signed, n - 1);
        assert(el.last() == ta && er.last() == tb);
        if ta == LogicBit::One && tb != LogicBit::One {
            c = -1;
        } else if ta != LogicBit::One && tb == LogicBit::One {
            c = 1;
        }
    }
    assert(c == sign_of(int_value(lhs.bits@, signed), int_value(rhs.bits@, signed)));
    let result = match op {
        BinaryOp::LessThan => c < 0,
        BinaryOp::GreaterThan => c > 0,
        BinaryOp::LessThanOrEqual => c <= 0,
        _ => c >= 0,
    };
    if result {
        LogicBit::One
    } else {
        LogicBit::Zero
    }
}

// ----- arithmetic -----
/// The low `w` bits of the integer `v` in two's complement.
pub open spec fn int_bits(v: int, w: nat) -> Seq<LogicBit> {
    Seq::new(
        w,
        |i: int|
            if (v / (pow2(i as nat) as int)) % 2 == 1 {
                LogicBit::One
            } else {
                LogicBit::Zero
            },
    )
}

pub open spec fn all_x(w: nat) -> Seq<LogicBit> {
    Seq::new(w, |i: int| LogicBit::X)
}

pub open spec fn is_arithmetic(op: BinaryOp) -> bool {
    op == BinaryOp::Add || op == BinaryOp::Subtract || op == BinaryOp::Multiply || op
        == BinaryOp::Divide || op == BinaryOp::Modulus
}

pub open spec fn arith_result(op: BinaryOp, a: int, b: int) -> int {
    if op == BinaryOp::Add {
        a + b
    } else if op == BinaryOp::Subtract {
        a - b
    } else if op == BinaryOp::Multiply {
        a * b
    } else if op == BinaryOp::Divide {
        trunc_div(a, b)
    } else {
        trunc_rem(a, b)
    }
}

/// The `w` result bits of `lhs op rhs` for `+ - * / %` (LRM 5.1.5): all `x`
/// when an operand has an `x` or `z` bit or a divisor is zero; otherwise the
/// integer result, division rounding toward zero, cut to `w` bits.
pub open spec fn arithmetic(op: BinaryOp, l: Seq<LogicBit>, r: Seq<LogicBit>, signed: bool, w: nat) -> Seq<LogicBit> {
    if has_unknown(l) || has_unknown(r) {
        all_x(w)
    } else {
        let a = int_value(l, signed);
        let b = int_value(r, signed);
        if (op == BinaryOp::Divide || op == BinaryOp::Modulus) && b == 0 {
            all_x(w)
        } else {
            int_bits(arith_result(op, a, b), w)
        }
    }
}

pub(crate) fn all_x_bits(width: usize) -> (r: Vec<LogicBit>)
    ensures
        r@ == all_x(width as nat),
{
    let mut out: Vec<LogicBit> = Vec::new();
    let mut i: usize = 0;
    while i < width
        invariant
            i <= width,
            out@ == all_x(i as nat),
        decreases width - i,
    {
        out.push(LogicBit::X);
        i = i + 1;
        assert(out@ =~= all_x(i as nat));
    }
    out
}

/// The low `width` bits of `v`.
pub fn bits_of_bigint(v: &BigInt, width: usize) -> (r: Vec<LogicBit>)
    ensures
        r@ == int_bits(bigint_value(*v), width as nat),
{
    let mut out: Vec<LogicBit> = Vec::new();
    let mut i: usize = 0;
    while i < width
        invariant
            i <= width,
            out@.len() == i,
            forall|j: int| 0 <= j < i ==> #[trigger] out@[j] == int_bits(bigint_value(*v), width as nat)[j],
        decreases width - i,
    {
        out.push(
            if bigint_bit(v, i as u64) {
                LogicBit::One
            } else {
                LogicBit::Zero
            },
        );
        i = i + 1;
    }
    assert(out@ =~= int_bits(bigint_value(*v), width as nat));
    out
}

impl IntegerValue {
    /// The number the bits denote, read as two's complement when `signed`.
    pub fn as_bigint(&self, signed: bool) -> (r: BigInt)
        ensures
            bigint_value(r) == int_value(self.bits@, signed),
    {
        let bits = &self.bits;
        let mut acc = bigint_small(0);
        let mut weight = bigint_small(1);
        let mut i: usize = 0;
        proof {
            lemma_pow2_pos(0);
            assert(pow2(0) == 1) by {
                vstd::arithmetic::power2::lemma2_to64();
            }
        }
        while i < bits.len()
            invariant
                i <= bits@.len(),
                bits@ == self.bits@,
                bigint_value(acc) == unsigned_value(bits@.take(i as int)),
                bigint_value(weight) == pow2(i as nat) as int,
            decreases bits@.len() - i,
        {
            proof {
                assert(bits@.take(i + 1).drop_last() =~= bits@.take(i as int));
                lemma_pow2_unfold((i + 1) as nat);
            }
            if bits[i] == LogicBit::One {
                acc = bigint_add(&acc, &weight);
            }
            weight = bigint_add(&weight, &weight);
            i = i + 1;
        }
        assert(bits@.take(i as int) =~= bits@);
        if signed && bits.len() > 0 && bits[bits.len() - 1] == LogicBit::One {
            acc = bigint_sub(&acc, &weight);
        }
        acc
    }
}

/// The result bits of `lhs op rhs` for an arithmetic operator, both operands
/// read as signed when `signed`, cut to `width` bits.
pub fn arithmetic_bits(
    op: BinaryOp,
    lhs: &IntegerValue,
    rhs: &IntegerValue,
    signed: bool,
    width: usize,
) -> (r: Vec<LogicBit>)
    requires
        is_arithmetic(op),
    ensures
        r@ == arithmetic(op, lhs.bits@, rhs.bits@, signed, width as nat),
{
    if lhs.has_unknown_bits() || rhs.has_unknown_bits() {
        return all_x_bits(width);
    }
    let a = lhs.as_bigint(signed);
    let b = rhs.as_bigint(signed);
    let result = match op {
        BinaryOp::Add => bigint_add(&a, &b),
        BinaryOp::Subtract => bigint_sub(&a, &b),
        BinaryOp::Multiply => bigint_mul(&a, &b),
        BinaryOp::Divide => {
            if rhs.is_zero() {
                return all_x_bits(width);
            }
            bigint_div(&a, &b)
        },
        _ => {
            if rhs.is_zero() {
                return all_x_bits(width);
            }
            bigint_rem(&a, &b)
        },
    };
    bits_of_bigint(&result, width)
}

/// The `w` result bits of unary `-` on `bits`.
pub open spec fn negation(bits: Seq<LogicBit>, signed: bool, w: nat) -> Seq<LogicBit> {
    if has_unknown(bits) {
        all_x(w)
    } else {
        int_bits(-int_value(bits, signed), w)
    }
}

/// Unary minus on `operand`, read as signed when `signed`, cut to `width` bits.
pub fn negate_bits(operand: &IntegerValue, signed: bool, width: usize) -> (r: Vec<LogicBit>)
    ensures
        r@ == negation(operand.bits@, signed, width as nat),
{
    if operand.has_unknown_bits() {
        return all_x_bits(width);
    }
    let v = operand.as_bigint(signed);
    bits_of_bigint(&bigint_neg(&v), width)
}

/// A vector of known bits denotes zero exactly when none of its bits is `1`.
pub proof fn lemma_zero_value(bits: Seq<LogicBit>, signed: bool)
    ensures
        (int_value(bits, signed) == 0) <==> (forall|i: int|
            0 <= i < bits.len() ==> #[trigger] bits[i] != LogicBit::One),
    decreases bits.len(),
{
    lemma_unsigned_bound(bits);
    if bits.len() > 0 {
        let d = bits.drop_last();
        lemma_zero_value(d, false);
        lemma_unsigned_bound(d);
        lemma_pow2_pos((bits.len() - 1) as nat);
        lemma_pow2_unfold(bits.len() as nat);
        if forall|i: int| 0 <= i < bits.len() ==> #[trigger] bits[i] != LogicBit::One {
            assert forall|i: int| 0 <= i < d.len() implies #[trigger] d[i] != LogicBit::One by {
                assert(bits[i] != LogicBit::One);
            }
            assert(bits[bits.len() - 1] != LogicBit::One);
        } else {
            let i = choose|i: int| 0 <= i < bits.len() && #[trigger] bits[i] == LogicBit::One;
            if i < d.len() {
                assert(d[i] == LogicBit::One);
            }
        }
    }
}

impl IntegerValue {
    /// Whether the value is zero: no bit is `1`.
    pub fn is_zero(&self) -> (r: bool)
        ensures
            r == (forall|i: int| 0 <= i < self.bits@.len() ==> #[trigger] self.bits@[i] != LogicBit::One),
            r == (int_value(self.bits@, false) == 0),
            r == (int_value(self.bits@, true) == 0),
    {
        proof {
            lemma_zero_value(self.bits@, false);
            lemma_zero_value(self.bits@, true);
        }
        let mut i: usize = 0;
        while i < self.bits.len()
            invariant
                i <= self.bits@.len(),
                forall|j: int| 0 <= j < i ==> #[trigger] self.bits@[j] != LogicBit::One,
            decreases self.bits@.len() - i,
        {
            if self.bits[i] == LogicBit::One {
                assert(self.bits@[i as int] == LogicBit::One);
                proof {
                    lemma_zero_value(self.bits@, false);
                    lemma_zero_value(self.bits@, true);
                }
                return false;
            }
            i = i + 1;
        }
        true
    }
}

// ----- power -----
/// `base ** exponent` at `w` bits (LRM 5.1.5, Table 5-6): `1` for a zero
/// exponent; for a negative one, undefined (`None`) with a zero base, `1`
/// for a base of `1`, `±1` by parity for `-1`, `0` otherwise; for a positive
/// one, the power modulo `2^w`.
pub open spec fn power_value(base: int, exponent: int, w: nat) -> Option<int> {
    if exponent == 0 {
        Some(1)
    } else if exponent < 0 {
        if base == 0 {
            None
        } else if base == 1 {
            Some(1)
        } else if base == -1 {
            Some(
                if exponent % 2 == 1 {
                    -1
                } else {
                    1
                },
            )
        } else {
            Some(0)
        }
    } else {
        let m = pow2(w) as int;
        Some(pow(base % m, exponent as nat) % m)
    }
}

/// `base ** exponent` computed at `width` bits, or the error of an undefined power.
pub fn evaluate_power(base: BigInt, exponent: BigInt, width: usize) -> (r: Result<BigInt, String>)
    ensures
        match power_value(bigint_value(base), bigint_value(exponent), width as nat) {
            Some(v) => r matches Ok(x) && bigint_value(x) == v,
            None => r matches Err(m) && m@ == "power result is undefined"@,
        },
{
    let exp_sign = bigint_signum(&exponent);
    if exp_sign == 0 {
        return Ok(bigint_small(1));
    }
    if exp_sign < 0 {
        let base_sign = bigint_signum(&base);
        if base_sign == 0 {
            proof {
                reveal_strlit("power result is undefined");
            }
            return Err(crate::text::owned("power result is undefined"));
        }
        let one = bigint_small(1);
        if bigint_signum(&bigint_sub(&base, &one)) == 0 {
            return Ok(one);
        }
        if bigint_signum(&bigint_add(&base, &one)) == 0 {
            if bigint_bit(&exponent, 0) {
                proof {
                    assert(pow2(0) == 1) by {
                        vstd::arithmetic::power2::lemma2_to64();
                    }
                }
                return Ok(bigint_neg(&one));
            }
            proof {
                assert(pow2(0) == 1) by {
                    vstd::arithmetic::power2::lemma2_to64();
                }
            }
            return Ok(one);
        }
        return Ok(bigint_small(0));
    }
    let modulus = biguint_pow2(width);
    proof {
        lemma_pow2_pos(width as nat);
    }
    let modulus_int = bigint_from_biguint(biguint_pow2(width));
    let mut residue = bigint_rem(&base, &modulus_int);
    if bigint_signum(&residue) < 0 {
        residue = bigint_add(&residue, &modulus_int);
    }
    proof {
        let b = bigint_value(base);
        let m = pow2(width as nat) as int;
        assert(bigint_value(residue) == b % m) by {
            lemma_trunc_rem_is_mod(b, m);
        }
    }
    let base_nat = bigint_magnitude(&residue);
    let exp_nat = bigint_magnitude(&exponent);
    let result = biguint_modpow(&base_nat, &exp_nat, &modulus);
    Ok(bigint_from_biguint(result))
}

/// The remainder rounded toward zero, moved up by `m` when negative, is the
/// remainder rounded down.
proof fn lemma_trunc_rem_is_mod(a: int, m: int)
    requires
        m > 0,
    ensures
        (if trunc_rem(a, m) < 0 {
            trunc_rem(a, m) + m
        } else {
            trunc_rem(a, m)
        }) == a % m,
{
    if a >= 0 {
        assert(abs(a) == a && abs(m) == m);
    } else {
        let n = -a;
        let k = n % m;
        vstd::arithmetic::div_mod::lemma_fundamental_div_mod(n, m);
        vstd::arithmetic::div_mod::lemma_mod_pos_bound(n, m);
        if k == 0 {
            assert(a == m * (-(n / m))) by (nonlinear_arith)
                requires
                    n == m * (n / m),
                    a == -n,
            ;
            vstd::arithmetic::div_mod::lemma_mod_multiples_basic(-(n / m), m);
            assert(m * (-(n / m)) == (-(n / m)) * m) by (nonlinear_arith);
        } else {
            assert(a == m * (-(n / m) - 1) + (m - k)) by (nonlinear_arith)
                requires
                    n == m * (n / m) + k,
                    a == -n,
            ;
            vstd::arithmetic::div_mod::lemma_fundamental_div_mod_converse(a, m, -(n / m) - 1, m - k);
        }
    }
}

/// The result bits of `lhs ** exponent` at `width` bits: all `x` when either
/// side has an `x` or `z` bit or the power is undefined. The base is read as
/// signed when `signed`, the exponent by its own signedness.
pub open spec fn power(l: Seq<LogicBit>, signed: bool, e: Seq<LogicBit>, e_signed: bool, w: nat) -> Seq<LogicBit> {
    if has_unknown(l) || has_unknown(e) {
        all_x(w)
    } else {
        match power_value(int_value(l, signed), int_value(e, e_signed), w) {
            Some(v) => int_bits(v, w),
            None => all_x(w),
        }
    }
}

pub fn power_bits(lhs: &IntegerValue, signed: bool, exponent: &IntegerValue, width: usize) -> (r: Vec<LogicBit>)
    ensures
        r@ == power(lhs.bits@, signed, exponent.bits@, exponent.signed, width as nat),
{
    if lhs.has_unknown_bits() || exponent.has_unknown_bits() {
        return all_x_bits(width);
    }
    let e = exponent.as_bigint(exponent.signed);
    let b = lhs.as_bigint(signed);
    match evaluate_power(b, e, width) {
        Ok(v) => bits_of_bigint(&v, width),
        Err(_) => all_x_bits(width),
    }
}

// ----- shifts -----
pub open spec fn is_shift(op: BinaryOp) -> bool {
    op == BinaryOp::LogicalShiftLeft || op == BinaryOp::LogicalShiftRight || op
        == BinaryOp::ArithmeticShiftLeft || op == BinaryOp::ArithmeticShiftRight
}

/// `bits` moved `n` places toward the top, `0` shifted in.
pub open spec fn shifted_left(bits: Seq<LogicBit>, n: int) -> Seq<LogicBit> {
    Seq::new(bits.len(), |i: int| if i < n { LogicBit::Zero } else { bits[i - n] })
}

/// `bits` moved `n` places toward the bottom, `fill` shifted in.
pub open spec fn shifted_right(bits: Seq<LogicBit>, n: int, fill: LogicBit) -> Seq<LogicBit> {
    Seq::new(bits.len(), |i: int| if i + n < bits.len() { bits[i + n] } else { fill })
}

/// The result bits of `lhs op rhs` for a shift (LRM 5.1.12): all `x` when the
/// amount has an `x` or `z` bit; otherwise `lhs` moved by the amount, read as
/// unsigned and capped at `width`. `<<<` is `<<`; `>>>` brings in copies of
/// the top bit when `signed`, zeros otherwise.
pub open spec fn shift(op: BinaryOp, l: Seq<LogicBit>, r: Seq<LogicBit>, signed: bool, width: nat) -> Seq<LogicBit> {
    if has_unknown(r) {
        all_x(width)
    } else {
        let amount = unsigned_value(r);
        let n = if amount >= width {
            width as int
        } else {
            amount
        };
        if op == BinaryOp::LogicalShiftLeft || op == BinaryOp::ArithmeticShiftLeft {
            shifted_left(l, n)
        } else if op == BinaryOp::LogicalShiftRight {
            shifted_right(l, n, LogicBit::Zero)
        } else {
            shifted_right(
                l,
                n,
                if signed && l.len() > 0 {
                    l.last()
                } else {
                    LogicBit::Zero
                },
            )
        }
    }
}

pub fn shift_result_bits(
    op: BinaryOp,
    lhs: &IntegerValue,
    rhs: &IntegerValue,
    signed: bool,
    width: usize,
) -> (r: Vec<LogicBit>)
    requires
        is_shift(op),
    ensures
        r@ == shift(op, lhs.bits@, rhs.bits@, signed, width as nat),
{
    if rhs.has_unknown_bits() {
        return all_x_bits(width);
    }
    let count = rhs.as_bigint(false);
    let over = bigint_sub(&count, &bigint_from_usize(width));
    let clamped: usize = if bigint_signum(&over) >= 0 {
        width
    } else {
        proof {
            lemma_unsigned_bound(rhs.bits@);
        }
        match bigint_to_usize(&count) {
            Some(n) => n,
            None => width,
        }
    };
    let bits = &lhs.bits;
    let r = match op {
        BinaryOp::LogicalShiftLeft | BinaryOp::ArithmeticShiftLeft => shift_bits_left(
            bits.as_slice(),
            clamped,
        ),
        BinaryOp::LogicalShiftRight => shift_bits_right(bits.as_slice(), clamped, LogicBit::Zero),
        _ => {
            let fill = if signed && bits.len() > 0 {
                bits[bits.len() - 1]
            } else {
                LogicBit::Zero
            };
            shift_bits_right(bits.as_slice(), clamped, fill)
        },
    };
    assert(r@ =~= shift(op, lhs.bits@, rhs.bits@, signed, width as nat));
    r
}

// ----- $clog2 -----
/// The ceiling of the base-2 logarithm of `v` (LRM 17.11.1): the number of
/// bits needed to count `v` values, `0` for `0` and `1`.
pub open spec fn clog2(v: nat) -> nat {
    if v == 0 {
        0
    } else {
        bit_len((v - 1) as nat)
    }
}

/// The 32 signed result bits of `$clog2` on an argument with bits `arg`
/// (read as unsigned): all `x` when the argument has an `x` or `z` bit.
pub open spec fn clog2_result(arg: Seq<LogicBit>) -> Seq<LogicBit> {
    if has_unknown(arg) {
        all_x(32)
    } else {
        int_bits(clog2(unsigned_value(arg) as nat) as int, 32)
    }
}

proof fn lemma_bit_len_at_most(n: nat, k: nat)
    requires
        n < pow2(k),
    ensures
        bit_len(n) <= k,
    decreases n,
{
    if n > 0 {
        if k == 0 {
            assert(pow2(0) == 1) by {
                vstd::arithmetic::power2::lemma2_to64();
            }
        } else {
            lemma_pow2_unfold(k);
            lemma_bit_len_at_most(n / 2, (k - 1) as nat);
        }
    }
}

/// `$clog2` of an evaluated argument.
pub fn clog2_bits(arg: &IntegerValue) -> (r: Vec<LogicBit>)
    ensures
        r@ == clog2_result(arg.bits@),
{
    if arg.has_unknown_bits() {
        return all_x_bits(32);
    }
    let v = arg.as_bigint(false);
    let width = arg.bits.len();
    proof {
        lemma_unsigned_bound(arg.bits@);
        assert(bigint_value(v) == unsigned_value(arg.bits@));
    }
    let result = if bigint_signum(&v) == 0 {
        bigint_small(0)
    } else {
        let below = bigint_sub(&v, &bigint_small(1));
        let n = bigint_magnitude(&below);
        assert(biguint_value(n) == unsigned_value(arg.bits@) - 1);
        let len = biguint_bits(&n);
        proof {
            lemma_bit_len_at_most(biguint_value(n), arg.bits@.len() as nat);
        }
        assert(len <= width);
        bigint_from_usize(len as usize)
    };
    assert(bigint_value(result) == clog2(unsigned_value(arg.bits@) as nat));
    bits_of_bigint(&result, 32)
}

// ----- replication counts -----
/// What a replication does with the evaluated value of its count
/// (LRM 5.1.14): a count with an `x` or `z` bit, a negative count (read by
/// the count's own signedness) or one too large for a `usize` is refused,
/// and so is zero unless `allow_zero` (a replication directly inside a
/// concatenation).
pub open spec fn replication_count_result(bits: Seq<LogicBit>, signed: bool, allow_zero: bool) -> Result<nat, Seq<char>> {
    if has_unknown(bits) {
        Err("replication count contains unknown bits"@)
    } else {
        let n = int_value(bits, signed);
        if n < 0 {
            Err("replication count must be non-negative"@)
        } else if n > usize::MAX {
            Err("replication count too large"@)
        } else if n == 0 && !allow_zero {
            Err("replication count must be positive in this context"@)
        } else {
            Ok(n as nat)
        }
    }
}

/// The count of a replication, from the value its count expression evaluated to.
pub fn replication_count(count: &IntegerValue, allow_zero: bool) -> (r: Result<usize, String>)
    ensures
        match replication_count_result(count.bits@, count.signed, allow_zero) {
            Ok(n) => r matches Ok(x) && x == n,
            Err(m) => r matches Err(x) && x@ == m,
        },
{
    if count.has_unknown_bits() {
        proof {
            reveal_strlit("replication count contains unknown bits");
        }
        return Err(crate::text::owned("replication count contains unknown bits"));
    }
    let n = count.as_bigint(count.signed);
    if bigint_signum(&n) < 0 {
        proof {
            reveal_strlit("replication count must be non-negative");
        }
        return Err(crate::text::owned("replication count must be non-negative"));
    }
    match bigint_to_usize(&n) {
        None => {
            proof {
                reveal_strlit("replication count too large");
            }
            Err(crate::text::owned("replication count too large"))
        },
        Some(v) => {
            if v == 0 && !allow_zero {
                proof {
                    reveal_strlit("replication count must be positive in this context");
                }
                Err(crate::text::owned("replication count must be positive in this context"))
            } else {
                Ok(v)
            }
        },
    }
}

// ----- laws -----
/// AND-reduction gives `0` as soon as one bit is `0`, whatever `x` or `z` the
/// other bits hold; NAND-reduction then gives `1`.
pub proof fn lemma_and_reduction_zero(bits: Seq<LogicBit>, k: int)
    requires
        0 <= k < bits.len(),
        bits[k] == LogicBit::Zero,
    ensures
        reduce(UnaryOp::ReductionAnd, bits) == LogicBit::Zero,
        reduce(UnaryOp::ReductionNand, bits) == LogicBit::One,
    decreases bits.len(),
{
    if k < bits.len() - 1 {
        assert(bits.drop_last()[k] == LogicBit::Zero);
        lemma_and_reduction_zero(bits.drop_last(), k);
    }
}

/// OR-reduction gives `1` as soon as one bit is `1`, whatever `x` or `z` the
/// other bits hold; NOR-reduction then gives `0`.
pub proof fn lemma_or_reduction_one(bits: Seq<LogicBit>, k: int)
    requires
        0 <= k < bits.len(),
        bits[k] == LogicBit::One,
    ensures
        reduce(UnaryOp::ReductionOr, bits) == LogicBit::One,
        reduce(UnaryOp::ReductionNor, bits) == LogicBit::Zero,
    decreases bits.len(),
{
    if k < bits.len() - 1 {
        assert(bits.drop_last()[k] == LogicBit::One);
        lemma_or_reduction_one(bits.drop_last(), k);
    }
}

/// On two vectors of one width whose bits are all `0` or `1`, `==` never
/// gives `x` and agrees with `===`; `!=` agrees with `!==`.
pub proof fn lemma_equality_of_known_bits(l: Seq<LogicBit>, r: Seq<LogicBit>)
    requires
        l.len() == r.len(),
        forall|i: int| 0 <= i < l.len() ==> is_known(#[trigger] l[i]) && is_known(r[i]),
    ensures
        equality(BinaryOp::Equal, l, r) != LogicBit::X,
        equality(BinaryOp::Equal, l, r) == equality(BinaryOp::CaseEqual, l, r),
        equality(BinaryOp::NotEqual, l, r) == equality(BinaryOp::CaseNotEqual, l, r),
{
    if l =~= r {
        assert(!definite_mismatch(l, r));
    } else {
        let i = choose|i: int| 0 <= i < l.len() && l[i] != r[i];
        assert(is_known(l[i]) && is_known(r[i]));
        assert(definite_mismatch(l, r));
    }
    assert(!some_unknown(l, r));
}

/// The logical value of a vector is its OR-reduction.
pub proof fn lemma_logical_is_or_reduction(bits: Seq<LogicBit>)
    ensures
        logical(bits) == reduce(UnaryOp::ReductionOr, bits),
    decreases bits.len(),
{
    if bits.len() > 0 {
        lemma_logical_is_or_reduction(bits.drop_last());
        let d = bits.drop_last();
        if exists|i: int| 0 <= i < d.len() && #[trigger] d[i] == LogicBit::One {
            let i = choose|i: int| 0 <= i < d.len() && #[trigger] d[i] == LogicBit::One;
            assert(bits[i] == LogicBit::One);
        }
        if bits.last() == LogicBit::One {
            assert(bits[bits.len() - 1] == LogicBit::One);
        }
        if forall|i: int| 0 <= i < bits.len() ==> #[trigger] bits[i] == LogicBit::Zero {
            assert(forall|i: int| 0 <= i < d.len() ==> #[trigger] d[i] == bits[i]);
        }
        if !(forall|i: int| 0 <= i < d.len() ==> #[trigger] d[i] == LogicBit::Zero) {
            let i = choose|i: int| 0 <= i < d.len() && #[trigger] d[i] != LogicBit::Zero;
            assert(bits[i] == d[i]);
        }
        if bits.last() != LogicBit::Zero {
            assert(bits[bits.len() - 1] != LogicBit::Zero);
        }
        if forall|i: int| 0 <= i < d.len() ==> #[trigger] d[i] == LogicBit::Zero {
            if bits.last() == LogicBit::Zero {
                assert forall|i: int| 0 <= i < bits.len() implies #[trigger] bits[i]
                    == LogicBit::Zero by {
                    if i < d.len() {
                        assert(bits[i] == d[i]);
                    }
                }
            }
        }
        if exists|i: int| 0 <= i < bits.len() && #[trigger] bits[i] == LogicBit::One {
            let i = choose|i: int| 0 <= i < bits.len() && #[trigger] bits[i] == LogicBit::One;
            if i < d.len() {
                assert(d[i] == LogicBit::One);
            }
        }
    }
}

/// A conditional whose condition is unknown gives back its arms' value when
/// both arms agree.
pub proof fn lemma_merge_of_equal_arms(bits: Seq<LogicBit>)
    ensures
        forall|i: int| 0 <= i < bits.len() ==> #[trigger] merge_bit(bits[i], bits[i]) == bits[i],
{
}

/// An outer context never narrows an operand: the width in context is at
/// least the operand's own and at least the context's.
pub proof fn lemma_context_never_narrows(meta: ExprMeta, ctx: ExprMeta)
    ensures
        in_context(meta, Some(ctx)).width >= meta.width,
        in_context(meta, Some(ctx)).width >= ctx.width,
        in_context(meta, Some(ctx)).signed == ctx.signed,
{
}

/// Results wrap at their width: the `w` bits an integer is cut to denote it
/// modulo `2^w`, for negative integers too (two's complement).
pub proof fn lemma_int_bits_wrap(v: int, w: nat)
    ensures
        unsigned_value(int_bits(v, w)) == v % (pow2(w) as int),
    decreases w,
{
    let s = int_bits(v, w);
    if w == 0 {
        assert(pow2(0) == 1) by {
            vstd::arithmetic::power2::lemma2_to64();
        }
        vstd::arithmetic::div_mod::lemma_mod_bound(v, 1);
    } else {
        let k = (w - 1) as nat;
        lemma_int_bits_wrap(v, k);
        assert(s.drop_last() =~= int_bits(v, k));
        let p = pow2(k) as int;
        let d = pow2(w) as int;
        lemma_pow2_pos(k);
        lemma_pow2_unfold(w);
        assert(d == 2 * p);
        let q = v / p;
        let r = v % p;
        vstd::arithmetic::div_mod::lemma_fundamental_div_mod(v, p);
        vstd::arithmetic::div_mod::lemma_mod_bound(v, p);
        let q2 = q / 2;
        let b = q % 2;
        vstd::arithmetic::div_mod::lemma_fundamental_div_mod(q, 2);
        vstd::arithmetic::div_mod::lemma_mod_bound(q, 2);
        assert(v == q2 * d + (p * b + r)) by (nonlinear_arith)
            requires
                v == p * q + r,
                q == 2 * q2 + b,
                d == 2 * p,
        ;
        assert(0 <= p * b + r < d) by (nonlinear_arith)
            requires
                0 <= r < p,
                0 <= b < 2,
                d == 2 * p,
        ;
        vstd::arithmetic::div_mod::lemma_fundamental_div_mod_converse(v, d, q2, p * b + r);
        assert(s.last() == (if b == 1 {
            LogicBit::One
        } else {
            LogicBit::Zero
        }));
        assert(p * b == (if b == 1 {
            p
        } else {
            0
        })) by (nonlinear_arith)
            requires
                0 <= b < 2,
        ;
        assert(unsigned_value(s) == unsigned_value(s.drop_last()) + (if s.last() == LogicBit::One {
            p
        } else {
            0
        }));
    }
}

/// Two vectors of one width, all of whose bits are `0` or `1`, that denote
/// the same unsigned number are the same vector.
pub proof fn lemma_unsigned_injective(s: Seq<LogicBit>, t: Seq<LogicBit>)
    requires
        s.len() == t.len(),
        forall|i: int| 0 <= i < s.len() ==> is_known(#[trigger] s[i]) && is_known(t[i]),
        unsigned_value(s) == unsigned_value(t),
    ensures
        s == t,
    decreases s.len(),
{
    if s.len() == 0 {
        assert(s =~= t);
    } else {
        let ds = s.drop_last();
        let dt = t.drop_last();
        lemma_unsigned_bound(ds);
        lemma_unsigned_bound(dt);
        assert(is_known(s[s.len() - 1]) && is_known(t[t.len() - 1]));
        assert(s.last() == t.last());
        assert forall|i: int| 0 <= i < ds.len() implies is_known(#[trigger] ds[i]) && is_known(
            dt[i],
        ) by {
            assert(ds[i] == s[i] && dt[i] == t[i]);
        }
        lemma_unsigned_injective(ds, dt);
        assert(s =~= t) by {
            assert forall|i: int| 0 <= i < s.len() implies s[i] == t[i] by {
                if i < ds.len() {
                    assert(ds[i] == s[i] && dt[i] == t[i]);
                }
            }
        }
    }
}

/// Reading a vector of `0`/`1` bits as a number and cutting that number back
/// to the vector's width gives the vector back, signed or not: the bits that
/// `as_bigint` reads are the bits `bits_of_bigint` writes.
pub proof fn lemma_read_back(bits: Seq<LogicBit>, signed: bool)
    requires
        !has_unknown(bits),
    ensures
        int_bits(int_value(bits, signed), bits.len()) == bits,
{
    let n = bits.len();
    let v = int_value(bits, signed);
    let u = unsigned_value(bits);
    let m = pow2(n) as int;
    lemma_unsigned_bound(bits);
    lemma_int_bits_wrap(v, n);
    if signed && n > 0 && bits.last() == LogicBit::One {
        assert(v == -1 * m + u);
        vstd::arithmetic::div_mod::lemma_fundamental_div_mod_converse(v, m, -1, u);
    } else {
        assert(v == 0 * m + u);
        vstd::arithmetic::div_mod::lemma_fundamental_div_mod_converse(v, m, 0, u);
    }
    let r = int_bits(v, n);
    assert forall|i: int| 0 <= i < n implies is_known(#[trigger] r[i]) && is_known(bits[i]) by {
        assert(!is_known(bits[i]) ==> has_unknown(bits));
    }
    lemma_unsigned_injective(r, bits);
}

} // verus!

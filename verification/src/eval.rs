//! Evaluation of integer expressions against the variables of a session
//! (LRM 5): the self-determined shape of every operand, the width and
//! signedness a context propagates down to the leaves, and the value each
//! operator computes from its operands' four-state bits.
use crate::ast::{
    view_args, view_expr, view_exprs, view_select, Base, BinaryOp, Expr, LogicBit, SArg, SExpr, SLiteral, SSelect,
    SelectKind, SystemArg, UnaryOp,
};
use crate::bignum::{
    bigint_add, bigint_neg, bigint_signum, bigint_small, bigint_sub, bigint_to_usize, bigint_value,
};
use crate::literal::string_literal_spec;
use crate::parser::{lemma_view_exprs, str_eq};
use crate::select::{
    bit_select, check_part_select_direction, fits_range, indexed_select_bounds,
    materialize_part_select, RegRange,
};
use crate::system::classify_system_call;
use crate::text::{append_str, owned, push_char};
use crate::value::{
    arithmetic_bits, bitwise_vector, clog2_bits, combine_binary_meta, conditional_meta,
    effective_meta, equality_bit, logical_binary_bit, logical_value, merge_conditional,
    negate_bits, not_vector, power_bits, reduce_bits, relational_bit, replication_count,
    shift_result_bits, IntegerValue, is_reduction,
};
use num_bigint::BigInt;
use crate::canonical::SVal;
use crate::literal::spec_string_literal;
use crate::select::{
    bit_at, direction_error, direction_matches, indexed_bounds, part_select_bits,
};
use crate::system::{classify, SystemCallKind, SystemFunction, RealConversionKind, MathFunctionKind};
use crate::value::{
    all_x, arithmetic, binary_meta, bitwise_table, clog2_result, conditional_shape, equality,
    has_unknown, in_context, int_value, is_arithmetic, is_bitwise, is_equality, is_relational,
    is_shift, literal_bits, logical, logical_binary, logical_not, merge_bit, min_len, negation,
    not_bit, power, reduce, relational, replication_count_result, shift, DisplayStyle, ExprMeta,
};
use crate::width::indefinite;
use crate::bignum::abs;
use vstd::prelude::*;

verus! {

/// A variable as the evaluator sees it: its declared range (none for a
/// scalar) and its value.
pub struct SReg {
    pub range: Option<(int, int)>,
    pub value: SVal,
}

/// The variables of a session, in declaration order.
pub type Vars = Seq<(Seq<char>, SReg)>;

/// The first variable named `name` at or after position `i`.
pub open spec fn find_from(vs: Vars, name: Seq<char>, i: int) -> Option<int>
    decreases vs.len() - i,
{
    if i < 0 || i >= vs.len() {
        None
    } else if vs[i].0 == name {
        Some(i)
    } else {
        find_from(vs, name, i + 1)
    }
}

pub open spec fn lookup(vs: Vars, name: Seq<char>) -> Option<SReg> {
    match find_from(vs, name, 0) {
        Some(i) => Some(vs[i].1),
        None => None,
    }
}

pub open spec fn undeclared(name: Seq<char>) -> Seq<char> {
    "undeclared identifier: "@ + name
}

// ----- value shapes -----
pub open spec fn meta_of(v: SVal) -> ExprMeta {
    ExprMeta { width: v.width, signed: v.signed, base: v.base }
}

/// A literal's value: its bits at its own width, its base locked.
pub open spec fn materialized(l: SLiteral) -> SVal {
    SVal {
        width: l.width,
        signed: l.signed,
        base: l.base,
        locked: true,
        style: DisplayStyle::Base,
        bits: literal_bits(l),
    }
}

/// `v` brought to `width` bits and the signedness `signed`: cut, or extended
/// with copies of its top bit when both `v` and the target are signed, with
/// zeros otherwise.
pub open spec fn resize(v: SVal, width: usize, signed: bool) -> SVal {
    SVal {
        width,
        signed,
        base: v.base,
        locked: v.locked,
        style: v.style,
        bits: Seq::new(
            width as nat,
            |i: int|
                if i < v.bits.len() {
                    v.bits[i]
                } else if v.signed && signed && v.bits.len() > 0 {
                    v.bits.last()
                } else {
                    LogicBit::Zero
                },
        ),
    }
}

/// A leaf under a context takes the context's width and signedness.
pub open spec fn in_ctx(v: SVal, ctx: Option<ExprMeta>) -> SVal {
    match ctx {
        Some(c) => resize(v, c.width, c.signed),
        None => v,
    }
}

/// A self-determined unsigned result (concatenation) widens, with zeros,
/// to a wider context.
pub open spec fn ext_unsigned(v: SVal, ctx: Option<ExprMeta>) -> SVal {
    match ctx {
        Some(c) => if c.width > v.width {
            resize(v, c.width, false)
        } else {
            v
        },
        None => v,
    }
}

/// A cast result widens to a wider context with the context's signedness.
pub open spec fn ext_cast(v: SVal, ctx: Option<ExprMeta>) -> SVal {
    match ctx {
        Some(c) => if c.width > v.width {
            resize(v, c.width, c.signed)
        } else {
            v
        },
        None => v,
    }
}

/// A value computed by an operator: its base not locked, shown as a number.
pub open spec fn computed(width: usize, signed: bool, base: Base, bits: Seq<LogicBit>) -> SVal {
    SVal { width, signed, base, locked: false, style: DisplayStyle::Base, bits }
}

/// The one-bit answer of a comparison or logical operator, zero-extended to
/// a wider context.
pub open spec fn one_bit(bit: LogicBit, ctx: Option<ExprMeta>) -> SVal {
    let r = computed(1, false, Base::Binary, seq![bit]);
    match ctx {
        Some(c) => if c.width > 1 {
            resize(r, c.width, false)
        } else {
            r
        },
        None => r,
    }
}

/// The items' bits joined, the first item most significant.
pub open spec fn join_bits(vals: Seq<SVal>) -> Seq<LogicBit>
    decreases vals.len(),
{
    if vals.len() == 0 {
        Seq::empty()
    } else {
        vals.last().bits + join_bits(vals.drop_last())
    }
}

pub open spec fn repeat_bits(bits: Seq<LogicBit>, n: nat) -> Seq<LogicBit>
    decreases n,
{
    if n == 0 {
        Seq::empty()
    } else {
        bits + repeat_bits(bits, (n - 1) as nat)
    }
}

/// A concatenation shows as text only when every operand of nonzero width
/// does and is a whole number of bytes, and there is one.
pub open spec fn joined_style(vals: Seq<SVal>) -> DisplayStyle {
    if (forall|i: int|
        0 <= i < vals.len() && #[trigger] vals[i].width != 0 ==> vals[i].style
            == DisplayStyle::String && vals[i].width % 8 == 0) && (exists|i: int|
        0 <= i < vals.len() && #[trigger] vals[i].width != 0) {
        DisplayStyle::String
    } else {
        DisplayStyle::Base
    }
}

pub open spec fn real_error() -> Seq<char> {
    "real value cannot be used as an integer expression here"@
}

pub open spec fn real_meta_error() -> Seq<char> {
    "real value has no integer width or signedness"@
}

pub open spec fn first_arg(name: Seq<char>, args: Seq<SArg>) -> Result<SExpr, Seq<char>> {
    if args.len() == 0 {
        Err(name + " is missing argument 1"@)
    } else {
        match args[0] {
            SArg::Expr(x) => Ok(x),
            SArg::Null => Err(name + " argument cannot be null"@),
        }
    }
}

pub open spec fn unary_keeps(op: UnaryOp) -> bool {
    op == UnaryOp::Plus || op == UnaryOp::Minus || op == UnaryOp::BitwiseNot
}

pub open spec fn string_too_long(b: Seq<u8>) -> bool {
    b.len() * 8 > usize::MAX
}

pub open spec fn string_too_long_error() -> Seq<char> {
    "string literal too long"@
}

/// The width of a part-select `[m:l]` once both ends are known.
pub open spec fn part_width(m: int, l: int) -> Result<usize, Seq<char>> {
    if abs(m - l) + 1 > usize::MAX {
        Err("part-select width too large"@)
    } else {
        Ok((abs(m - l) + 1) as usize)
    }
}

pub open spec fn endpoint(v: SVal, role: Seq<char>) -> Result<int, Seq<char>> {
    if has_unknown(v.bits) {
        Err("part-select "@ + role + " contains unknown bits"@)
    } else {
        Ok(int_value(v.bits, v.signed))
    }
}

pub open spec fn indexed_width(v: SVal) -> Result<usize, Seq<char>> {
    if has_unknown(v.bits) {
        Err("indexed part-select width contains unknown bits"@)
    } else if int_value(v.bits, v.signed) <= 0 {
        Err("indexed part-select width must be positive"@)
    } else if int_value(v.bits, v.signed) > usize::MAX {
        Err("indexed part-select width too large"@)
    } else {
        Ok(int_value(v.bits, v.signed) as usize)
    }
}

pub open spec fn chained_error(name: Seq<char>) -> Seq<char> {
    "chained select on `"@ + name + "` is illegal: `"@ + name + "` is not an array"@
}

pub open spec fn scalar_error(name: Seq<char>) -> Seq<char> {
    "bit-select or part-select on scalar reg `"@ + name + "` is illegal"@
}

pub open spec fn placeholder_error() -> Seq<char> {
    "display placeholder cannot be evaluated"@
}

// ----- the evaluator -----
/// The value of `e` under the context `ctx` (none: self-determined), or the
/// error that stops the evaluation.
pub open spec fn sev(e: SExpr, ctx: Option<ExprMeta>, vs: Vars) -> Result<SVal, Seq<char>>
    decreases e, 2nat,
{
    match e {
        SExpr::Literal(l) => Ok(in_ctx(materialized(l), ctx)),
        SExpr::StringLiteral(b) => if string_too_long(b) {
            Err(string_too_long_error())
        } else {
            let v = materialized(spec_string_literal(b));
            Ok(
                in_ctx(
                    SVal {
                        width: v.width,
                        signed: v.signed,
                        base: v.base,
                        locked: v.locked,
                        style: DisplayStyle::String,
                        bits: v.bits,
                    },
                    ctx,
                ),
            )
        },
        SExpr::RealLiteral(_) => Err(real_error()),
        SExpr::Grouped(i) => sev(*i, ctx, vs),
        SExpr::Unary { .. } => sev_unary(e, ctx, vs),
        SExpr::Binary { .. } => sev_binary(e, ctx, vs),
        SExpr::Conditional { .. } => sev_conditional(e, ctx, vs),
        SExpr::Concatenation { .. } => sev_concat(e, ctx, vs),
        SExpr::Replication { .. } => match replicate(e, true, vs) {
            Err(m) => Err(m),
            Ok(v) => Ok(ext_unsigned(v, ctx)),
        },
        SExpr::SystemCall { .. } => sev_syscall(e, ctx, vs),
        SExpr::Identifier(n) => match lookup(vs, n) {
            None => Err(undeclared(n)),
            Some(r) => Ok(in_ctx(r.value, ctx)),
        },
        SExpr::Select { .. } => sev_select(e, ctx, vs),
        SExpr::Truncated => Err(placeholder_error()),
    }
}

pub open spec fn sev_unary(e: SExpr, ctx: Option<ExprMeta>, vs: Vars) -> Result<SVal, Seq<char>>
    decreases e, 0nat,
{
    match e {
        SExpr::Unary { op, expr } => if unary_keeps(op) {
            match smeta(*expr, vs) {
                Err(m) => Err(m),
                Ok(m) => {
                    let eff = in_context(m, ctx);
                    match sev(*expr, Some(eff), vs) {
                        Err(x) => Err(x),
                        Ok(v) => Ok(
                            if op == UnaryOp::Plus {
                                v
                            } else if op == UnaryOp::BitwiseNot {
                                computed(
                                    eff.width,
                                    eff.signed,
                                    m.base,
                                    Seq::new(v.bits.len(), |i: int| not_bit(v.bits[i])),
                                )
                            } else {
                                computed(
                                    eff.width,
                                    eff.signed,
                                    m.base,
                                    negation(v.bits, eff.signed, eff.width as nat),
                                )
                            },
                        ),
                    }
                },
            }
        } else {
            match sev(*expr, None, vs) {
                Err(m) => Err(m),
                Ok(v) => Ok(
                    one_bit(
                        if op == UnaryOp::LogicalNot {
                            logical_not(logical(v.bits))
                        } else {
                            reduce(op, v.bits)
                        },
                        ctx,
                    ),
                ),
            }
        },
        _ => Err(placeholder_error()),
    }
}

pub open spec fn sev_binary(e: SExpr, ctx: Option<ExprMeta>, vs: Vars) -> Result<SVal, Seq<char>>
    decreases e, 0nat,
{
    match e {
        SExpr::Binary { op, lhs, rhs } => match smeta(*lhs, vs) {
            Err(m) => Err(m),
            Ok(lm) => match smeta(*rhs, vs) {
                Err(m) => Err(m),
                Ok(rm) => if is_relational(op) || is_equality(op) {
                    let w = if lm.width >= rm.width {
                        lm.width
                    } else {
                        rm.width
                    };
                    let s = lm.signed && rm.signed;
                    match sev(*lhs, Some(ExprMeta { width: w, signed: s, base: lm.base }), vs) {
                        Err(m) => Err(m),
                        Ok(lv) => match sev(
                            *rhs,
                            Some(ExprMeta { width: w, signed: s, base: rm.base }),
                            vs,
                        ) {
                            Err(m) => Err(m),
                            Ok(rv) => Ok(
                                one_bit(
                                    if is_relational(op) {
                                        relational(op, lv.bits, rv.bits, s)
                                    } else {
                                        equality(op, lv.bits, rv.bits)
                                    },
                                    ctx,
                                ),
                            ),
                        },
                    }
                } else if op == BinaryOp::LogicalAnd || op == BinaryOp::LogicalOr {
                    match sev(*lhs, None, vs) {
                        Err(m) => Err(m),
                        Ok(lv) => match sev(*rhs, None, vs) {
                            Err(m) => Err(m),
                            Ok(rv) => Ok(one_bit(logical_binary(op, lv.bits, rv.bits), ctx)),
                        },
                    }
                } else if is_shift(op) {
                    let eff = in_context(lm, ctx);
                    match sev(*lhs, Some(eff), vs) {
                        Err(m) => Err(m),
                        Ok(lv) => match sev(*rhs, None, vs) {
                            Err(m) => Err(m),
                            Ok(rv) => Ok(
                                computed(
                                    eff.width,
                                    eff.signed,
                                    lm.base,
                                    shift(op, lv.bits, rv.bits, eff.signed, eff.width as nat),
                                ),
                            ),
                        },
                    }
                } else {
                    let meta = binary_meta(op, lm, rm);
                    let ew = in_context(meta, ctx).width;
                    let eff = ExprMeta { width: ew, signed: meta.signed, base: meta.base };
                    if op == BinaryOp::Power {
                        match sev(
                            *lhs,
                            Some(ExprMeta { width: ew, signed: lm.signed, base: lm.base }),
                            vs,
                        ) {
                            Err(m) => Err(m),
                            Ok(lv) => match sev(*rhs, None, vs) {
                                Err(m) => Err(m),
                                Ok(xv) => Ok(
                                    computed(
                                        ew,
                                        lm.signed,
                                        lm.base,
                                        power(lv.bits, lm.signed, xv.bits, xv.signed, ew as nat),
                                    ),
                                ),
                            },
                        }
                    } else {
                        match sev(*lhs, Some(eff), vs) {
                            Err(m) => Err(m),
                            Ok(lv) => match sev(*rhs, Some(eff), vs) {
                                Err(m) => Err(m),
                                Ok(rv) => Ok(
                                    if is_bitwise(op) {
                                        computed(
                                            ew,
                                            eff.signed,
                                            eff.base,
                                            Seq::new(
                                                min_len(lv.bits, rv.bits),
                                                |i: int| bitwise_table(op, lv.bits[i], rv.bits[i]),
                                            ),
                                        )
                                    } else {
                                        computed(
                                            ew,
                                            meta.signed,
                                            meta.base,
                                            arithmetic(op, lv.bits, rv.bits, meta.signed, ew as nat),
                                        )
                                    },
                                ),
                            },
                        }
                    }
                },
            },
        },
        _ => Err(placeholder_error()),
    }
}

pub open spec fn sev_conditional(e: SExpr, ctx: Option<ExprMeta>, vs: Vars) -> Result<SVal, Seq<char>>
    decreases e, 0nat,
{
    match e {
        SExpr::Conditional { cond, then_expr, else_expr } => match smeta(*then_expr, vs) {
            Err(m) => Err(m),
            Ok(tm) => match smeta(*else_expr, vs) {
                Err(m) => Err(m),
                Ok(em) => {
                    let meta = conditional_shape(tm, em);
                    let eff = in_context(meta, ctx);
                    match sev(*cond, None, vs) {
                        Err(m) => Err(m),
                        Ok(cv) => {
                            let c = logical(cv.bits);
                            if c == LogicBit::One {
                                match sev(*then_expr, Some(eff), vs) {
                                    Err(m) => Err(m),
                                    Ok(v) => Ok(computed(eff.width, eff.signed, meta.base, v.bits)),
                                }
                            } else if c == LogicBit::Zero {
                                match sev(*else_expr, Some(eff), vs) {
                                    Err(m) => Err(m),
                                    Ok(v) => Ok(computed(eff.width, eff.signed, meta.base, v.bits)),
                                }
                            } else {
                                match sev(*then_expr, Some(eff), vs) {
                                    Err(m) => Err(m),
                                    Ok(tv) => match sev(*else_expr, Some(eff), vs) {
                                        Err(m) => Err(m),
                                        Ok(fv) => Ok(
                                            computed(
                                                eff.width,
                                                eff.signed,
                                                meta.base,
                                                Seq::new(
                                                    min_len(tv.bits, fv.bits),
                                                    |i: int| merge_bit(tv.bits[i], fv.bits[i]),
                                                ),
                                            ),
                                        ),
                                    },
                                }
                            }
                        },
                    }
                },
            },
        },
        _ => Err(placeholder_error()),
    }
}

pub open spec fn sev_concat(e: SExpr, ctx: Option<ExprMeta>, vs: Vars) -> Result<SVal, Seq<char>>
    decreases e, 0nat,
{
    match e {
        SExpr::Concatenation { items } => if items.len() == 0 {
            Err("concatenation requires at least one operand"@)
        } else if exists|i: int| 0 <= i < items.len() && indefinite(#[trigger] items[i]) {
            Err("concatenation operand has indefinite width"@)
        } else {
            match sev_items(items, vs) {
                Err(m) => Err(m),
                Ok(vals) => {
                    let bits = join_bits(vals);
                    if bits.len() == 0 {
                        Err("concatenation must have at least one operand with positive size"@)
                    } else {
                        Ok(
                            ext_unsigned(
                                SVal {
                                    width: bits.len() as usize,
                                    signed: false,
                                    base: if vals.len() > 0 {
                                        vals[0].base
                                    } else {
                                        Base::Binary
                                    },
                                    locked: false,
                                    style: joined_style(vals),
                                    bits,
                                },
                                ctx,
                            ),
                        )
                    }
                },
            }
        },
        _ => Err(placeholder_error()),
    }
}

pub open spec fn sev_syscall(e: SExpr, ctx: Option<ExprMeta>, vs: Vars) -> Result<SVal, Seq<char>>
    decreases e, 0nat,
{
    match e {
        SExpr::SystemCall { name, args } => match classify(name) {
            Err(m) => Err(m),
            Ok(SystemCallKind::Task(_)) => Err(name + "() is a system task, it cannot be called as a function."@),
            Ok(SystemCallKind::Function(f)) => match f {
                SystemFunction::SignCast { signed } => if args.len() == 0 {
                    Err(name + " is missing argument 1"@)
                } else {
                    match args[0] {
                        SArg::Null => Err(name + " argument cannot be null"@),
                        SArg::Expr(x) => match sev(x, None, vs) {
                            Err(m) => Err(m),
                            Ok(v) => Ok(ext_cast(computed(v.width, signed, v.base, v.bits), ctx)),
                        },
                    }
                },
                SystemFunction::BaseCast(base) => if args.len() == 0 {
                    Err(name + " is missing argument 1"@)
                } else {
                    match args[0] {
                        SArg::Null => Err(name + " argument cannot be null"@),
                        SArg::Expr(x) => match sev(x, None, vs) {
                            Err(m) => Err(m),
                            Ok(v) => Ok(ext_cast(computed(v.width, v.signed, base, v.bits), ctx)),
                        },
                    }
                },
                SystemFunction::Math(k) => if k == MathFunctionKind::Clog2 {
                    if args.len() == 0 {
                        Err(name + " is missing argument 1"@)
                    } else {
                        match args[0] {
                            SArg::Null => Err(name + " argument cannot be null"@),
                            SArg::Expr(x) => match sev(x, None, vs) {
                                Err(m) => Err(m),
                                Ok(v) => Ok(
                                    ext_cast(
                                        computed(32, true, Base::Decimal, clog2_result(v.bits)),
                                        ctx,
                                    ),
                                ),
                            },
                        }
                    }
                } else {
                    Err(real_error())
                },
                SystemFunction::RealConversion(_) => Err(real_error()),
            },
        },
        _ => Err(placeholder_error()),
    }
}

pub open spec fn sev_select(e: SExpr, ctx: Option<ExprMeta>, vs: Vars) -> Result<SVal, Seq<char>>
    decreases e, 0nat,
{
    match e {
        SExpr::Select { name, kind, inner } => match lookup(vs, name) {
            None => Err(undeclared(name)),
            Some(r) => if (inner is Some) {
                Err(chained_error(name))
            } else {
                match r.range {
                    None => Err(scalar_error(name)),
                    Some((msb, lsb)) => match select_bits(kind, r.value, msb, lsb, vs) {
                        Err(m) => Err(m),
                        Ok(bits) => Ok(
                            in_ctx(computed(bits.len() as usize, false, r.value.base, bits), ctx),
                        ),
                    },
                }
            },
        },
        _ => Err(placeholder_error()),
    }
}

/// The self-determined shape of `e` (LRM 5.4.1), or the error that stops it.
pub open spec fn smeta(e: SExpr, vs: Vars) -> Result<ExprMeta, Seq<char>>
    decreases e, 1nat,
{
    match e {
        SExpr::Literal(l) => Ok(ExprMeta { width: l.width, signed: l.signed, base: l.base }),
        SExpr::StringLiteral(b) => if string_too_long(b) {
            Err(string_too_long_error())
        } else {
            let l = spec_string_literal(b);
            Ok(ExprMeta { width: l.width, signed: l.signed, base: l.base })
        },
        SExpr::RealLiteral(_) => Err(real_meta_error()),
        SExpr::Grouped(i) => smeta(*i, vs),
        SExpr::Unary { op, expr } => if unary_keeps(op) {
            smeta(*expr, vs)
        } else {
            Ok(ExprMeta { width: 1, signed: false, base: Base::Binary })
        },
        SExpr::Binary { op, lhs, rhs } => match smeta(*lhs, vs) {
            Err(m) => Err(m),
            Ok(lm) => match smeta(*rhs, vs) {
                Err(m) => Err(m),
                Ok(rm) => Ok(binary_meta(op, lm, rm)),
            },
        },
        SExpr::Conditional { then_expr, else_expr, .. } => match smeta(*then_expr, vs) {
            Err(m) => Err(m),
            Ok(tm) => match smeta(*else_expr, vs) {
                Err(m) => Err(m),
                Ok(em) => Ok(conditional_shape(tm, em)),
            },
        },
        SExpr::Concatenation { items } => match smeta_items(items, vs) {
            Err(m) => Err(m),
            Ok(ms) => Ok(crate::value::concat_shape(ms)),
        },
        SExpr::Replication { count, items } => match smeta_items(items, vs) {
            Err(m) => Err(m),
            Ok(ms) => match sev(*count, None, vs) {
                Err(m) => Err(m),
                Ok(c) => match replication_count_result(c.bits, c.signed, true) {
                    Err(m) => Err(m),
                    Ok(n) => Ok(crate::value::replication_shape(ms, n)),
                },
            },
        },
        SExpr::SystemCall { name, args } => match classify(name) {
            Err(m) => Err(m),
            Ok(SystemCallKind::Task(_)) => Err(name + "() is a system task, it cannot be called as a function."@),
            Ok(SystemCallKind::Function(f)) => match f {
                SystemFunction::RealConversion(k) => if k == RealConversionKind::RealToInteger {
                    Ok(ExprMeta { width: 32, signed: true, base: Base::Decimal })
                } else if k == RealConversionKind::RealToBits {
                    Ok(ExprMeta { width: 64, signed: false, base: Base::Hex })
                } else {
                    Err(real_meta_error())
                },
                SystemFunction::Math(k) => if k == MathFunctionKind::Clog2 {
                    Ok(ExprMeta { width: 32, signed: true, base: Base::Decimal })
                } else {
                    Err(real_meta_error())
                },
                SystemFunction::SignCast { signed } => if args.len() == 0 {
                    Err(name + " is missing argument 1"@)
                } else {
                    match args[0] {
                        SArg::Null => Err(name + " argument cannot be null"@),
                        SArg::Expr(x) => match smeta(x, vs) {
                            Err(m) => Err(m),
                            Ok(m) => Ok(ExprMeta { width: m.width, signed, base: m.base }),
                        },
                    }
                },
                SystemFunction::BaseCast(base) => if args.len() == 0 {
                    Err(name + " is missing argument 1"@)
                } else {
                    match args[0] {
                        SArg::Null => Err(name + " argument cannot be null"@),
                        SArg::Expr(x) => match smeta(x, vs) {
                            Err(m) => Err(m),
                            Ok(m) => Ok(ExprMeta { width: m.width, signed: m.signed, base }),
                        },
                    }
                },
            },
        },
        SExpr::Identifier(n) => match lookup(vs, n) {
            None => Err(undeclared(n)),
            Some(r) => Ok(meta_of(r.value)),
        },
        SExpr::Select { name, kind, inner } => match lookup(vs, name) {
            None => Err(undeclared(name)),
            Some(r) => if (inner is Some) {
                Err(chained_error(name))
            } else {
                match r.range {
                    None => Err(scalar_error(name)),
                    Some((msb, lsb)) => match select_width(kind, msb, lsb, vs) {
                        Err(m) => Err(m),
                        Ok(w) => Ok(ExprMeta { width: w, signed: false, base: r.value.base }),
                    },
                }
            },
        },
        SExpr::Truncated => Err(placeholder_error()),
    }
}

/// The width of a select on a reg declared `[msb:lsb]`.
pub open spec fn select_width(k: SSelect, msb: int, lsb: int, vs: Vars) -> Result<usize, Seq<char>>
    decreases k, 0nat,
{
    match k {
        SSelect::Bit { .. } => Ok(1),
        SSelect::PartConst { msb: m, lsb: l } => match sev(*m, None, vs) {
            Err(e) => Err(e),
            Ok(mv) => match endpoint(mv, "msb"@) {
                Err(e) => Err(e),
                Ok(ms) => match sev(*l, None, vs) {
                    Err(e) => Err(e),
                    Ok(lv) => match endpoint(lv, "lsb"@) {
                        Err(e) => Err(e),
                        Ok(ls) => if !direction_matches(msb, lsb, ms, ls) {
                            Err(direction_error(msb, lsb, ms, ls))
                        } else {
                            part_width(ms, ls)
                        },
                    },
                },
            },
        },
        SSelect::PartIndexedUp { width, .. } => match sev(*width, None, vs) {
            Err(e) => Err(e),
            Ok(wv) => indexed_width(wv),
        },
        SSelect::PartIndexedDown { width, .. } => match sev(*width, None, vs) {
            Err(e) => Err(e),
            Ok(wv) => indexed_width(wv),
        },
    }
}

pub open spec fn smeta_items(items: Seq<SExpr>, vs: Vars) -> Result<Seq<ExprMeta>, Seq<char>>
    decreases items, 0nat,
{
    if items.len() == 0 {
        Ok(Seq::empty())
    } else {
        match smeta_items(items.drop_last(), vs) {
            Err(m) => Err(m),
            Ok(ms) => match smeta(items.last(), vs) {
                Err(m) => Err(m),
                Ok(m) => Ok(ms.push(m)),
            },
        }
    }
}

/// The bits a select reads from a reg (value `v`, declared `[msb:lsb]`).
pub open spec fn select_bits(k: SSelect, v: SVal, msb: int, lsb: int, vs: Vars) -> Result<
    Seq<LogicBit>,
    Seq<char>,
>
    decreases k, 1nat,
{
    match k {
        SSelect::Bit { index } => match sev(*index, None, vs) {
            Err(e) => Err(e),
            Ok(iv) => Ok(
                seq![
                    if has_unknown(iv.bits) {
                        LogicBit::X
                    } else {
                        bit_at(v.bits, msb, lsb, int_value(iv.bits, iv.signed))
                    },
                ],
            ),
        },
        SSelect::PartConst { msb: m, lsb: l } => match select_width(k, msb, lsb, vs) {
            Err(e) => Err(e),
            Ok(w) => match sev(*m, None, vs) {
                Err(e) => Err(e),
                Ok(mv) => match sev(*l, None, vs) {
                    Err(e) => Err(e),
                    Ok(lv) => Ok(
                        part_select_bits(
                            v.bits,
                            msb,
                            lsb,
                            int_value(mv.bits, mv.signed),
                            int_value(lv.bits, lv.signed),
                            w as nat,
                        ),
                    ),
                },
            },
        },
        SSelect::PartIndexedUp { base, width } => indexed_bits(
            select_width(k, msb, lsb, vs),
            sev(*base, None, vs),
            v,
            msb,
            lsb,
            true,
        ),
        SSelect::PartIndexedDown { base, width } => indexed_bits(
            select_width(k, msb, lsb, vs),
            sev(*base, None, vs),
            v,
            msb,
            lsb,
            false,
        ),
    }
}

pub open spec fn indexed_bits(
    w: Result<usize, Seq<char>>,
    b: Result<SVal, Seq<char>>,
    v: SVal,
    msb: int,
    lsb: int,
    up: bool,
) -> Result<Seq<LogicBit>, Seq<char>> {
    match w {
        Err(e) => Err(e),
        Ok(w) => match b {
            Err(e) => Err(e),
            Ok(bv) => if has_unknown(bv.bits) {
                Ok(all_x(w as nat))
            } else {
                let (ms, ls) = indexed_bounds(msb, lsb, int_value(bv.bits, bv.signed), w as nat, up);
                Ok(part_select_bits(v.bits, msb, lsb, ms, ls, w as nat))
            },
        },
    }
}

/// The value of a concatenation operand: a replication inside a
/// concatenation may have a zero count.
pub open spec fn sev_item(e: SExpr, vs: Vars) -> Result<SVal, Seq<char>>
    decreases e, 3nat,
{
    match e {
        SExpr::Grouped(i) => sev_item(*i, vs),
        SExpr::Replication { .. } => replicate(e, false, vs),
        _ => sev(e, None, vs),
    }
}

pub open spec fn sev_items(items: Seq<SExpr>, vs: Vars) -> Result<Seq<SVal>, Seq<char>>
    decreases items, 1nat,
{
    if items.len() == 0 {
        Ok(Seq::empty())
    } else {
        match sev_items(items.drop_last(), vs) {
            Err(m) => Err(m),
            Ok(vals) => match sev_item(items.last(), vs) {
                Err(m) => Err(m),
                Ok(v) => Ok(vals.push(v)),
            },
        }
    }
}

/// The replication `e` (`{count{items}}`), its count required positive when `strict`.
pub open spec fn replicate(e: SExpr, strict: bool, vs: Vars) -> Result<SVal, Seq<char>>
    decreases e, 0nat,
{
    match e {
        SExpr::Replication { count, items } => {
            match sev(*count, None, vs) {
                Err(m) => Err(m),
                Ok(c) => match replication_count_result(c.bits, c.signed, !strict) {
                    Err(m) => Err(m),
                    Ok(n) => if n == 0 {
                        if items.len() == 0 {
                            Ok(computed(0, false, Base::Binary, Seq::empty()))
                        } else {
                            match smeta(items[0], vs) {
                                Err(m) => Err(m),
                                Ok(m0) => Ok(computed(0, false, m0.base, Seq::empty())),
                            }
                        }
                    } else {
                        match sev_items(items, vs) {
                            Err(m) => Err(m),
                            Ok(vals) => {
                                let inner = join_bits(vals);
                                if strict && inner.len() == 0 {
                                    Err("concatenation must have at least one operand with positive size"@)
                                } else {
                                    let bits = repeat_bits(inner, n);
                                    Ok(
                                        SVal {
                                            width: bits.len() as usize,
                                            signed: false,
                                            base: if vals.len() > 0 {
                                        vals[0].base
                                    } else {
                                        Base::Binary
                                    },
                                            locked: false,
                                            style: joined_style(vals),
                                            bits,
                                        },
                                    )
                                }
                            },
                        }
                    },
                },
            }
        },
        _ => Err(placeholder_error()),
    }
}

// ----- the session -----
/// A declared variable: its range `[msb:lsb]` (none for a scalar) and value.
pub struct Reg {
    pub range: Option<RegRange>,
    pub value: IntegerValue,
}

impl View for Reg {
    type V = SReg;

    open spec fn view(&self) -> SReg {
        SReg {
            range: match self.range {
                Some(r) => Some((bigint_value(r.msb), bigint_value(r.lsb))),
                None => None,
            },
            value: self.value@,
        }
    }
}

/// The variables of a REPL session, which persist from one input to the next.
pub struct Session {
    vars: Vec<(String, Reg)>,
}

pub open spec fn vars_view(v: Seq<(String, Reg)>) -> Vars {
    Seq::new(v.len(), |i: int| (v[i].0@, v[i].1@))
}

/// Every ranged variable holds one bit per index of its range, and no name
/// is declared twice.
pub open spec fn wf_vars(vs: Vars) -> bool {
    &&& forall|i: int|
        0 <= i < vs.len() ==> (#[trigger] vs[i]).1.value.bits.len() == vs[i].1.value.width
    &&& forall|i: int|
        0 <= i < vs.len() ==> (match (#[trigger] vs[i]).1.range {
            Some((m, l)) => fits_range(vs[i].1.value.bits, m, l),
            None => true,
        })
    &&& forall|i: int, j: int|
        0 <= i < j < vs.len() ==> (#[trigger] vs[i]).0 != (#[trigger] vs[j]).0
}

impl View for Session {
    type V = Vars;

    closed spec fn view(&self) -> Vars {
        vars_view(self.vars@)
    }
}

impl Session {
    pub open spec fn wf(&self) -> bool {
        wf_vars(self@)
    }

    /// A session with no variables.
    pub fn new() -> (s: Self)
        ensures
            s@ == Seq::<(Seq<char>, SReg)>::empty(),
            s.wf(),
    {
        let s = Session { vars: Vec::new() };
        assert(s@ =~= Seq::<(Seq<char>, SReg)>::empty());
        s
    }

    /// The position of the variable `name`.
    fn position(&self, name: &str) -> (r: Option<usize>)
        ensures
            r matches Some(i) ==> find_from(self@, name@, 0) == Some(i as int) && i < self.vars@.len(),
            r is None ==> find_from(self@, name@, 0) is None,
    {
        let mut i: usize = 0;
        while i < self.vars.len()
            invariant
                i <= self.vars@.len(),
                find_from(self@, name@, 0) == find_from(self@, name@, i as int),
            decreases self.vars@.len() - i,
        {
            if str_eq(&self.vars[i].0, name) {
                return Some(i);
            }
            i = i + 1;
        }
        None
    }

    /// The variable `name`, if declared.
    pub fn lookup(&self, name: &str) -> (r: Option<&Reg>)
        ensures
            match lookup(self@, name@) {
                Some(g) => r matches Some(x) && x@ == g,
                None => r is None,
            },
    {
        match self.position(name) {
            Some(i) => Some(&self.vars[i].1),
            None => None,
        }
    }
}

// ----- helpers of the evaluator -----
pub open spec fn res_val(r: Result<IntegerValue, String>, s: Result<SVal, Seq<char>>) -> bool {
    match s {
        Ok(v) => r matches Ok(x) && x@ == v,
        Err(m) => r matches Err(x) && x@ == m,
    }
}

pub open spec fn res_meta(r: Result<ExprMeta, String>, s: Result<ExprMeta, Seq<char>>) -> bool {
    match s {
        Ok(v) => r == Ok::<ExprMeta, String>(v),
        Err(m) => r matches Err(x) && x@ == m,
    }
}

pub open spec fn vals_view(v: Seq<IntegerValue>) -> Seq<SVal> {
    Seq::new(v.len(), |i: int| v[i]@)
}

fn err_with(prefix: &str, name: &str, suffix: &str) -> (r: String)
    ensures
        r@ == prefix@ + name@ + suffix@,
{
    let mut m = owned(prefix);
    append_str(&mut m, name);
    append_str(&mut m, suffix);
    m
}

fn prefixed(prefix: &str, name: &str) -> (r: String)
    ensures
        r@ == prefix@ + name@,
{
    let mut m = owned(prefix);
    append_str(&mut m, name);
    m
}

fn suffixed(name: &str, suffix: &str) -> (r: String)
    ensures
        r@ == name@ + suffix@,
{
    let mut m = owned(name);
    append_str(&mut m, suffix);
    m
}

fn make_computed(width: usize, signed: bool, base: Base, bits: Vec<LogicBit>) -> (r: IntegerValue)
    ensures
        r@ == computed(width, signed, base, bits@),
{
    IntegerValue {
        width,
        signed,
        base,
        base_locked: false,
        display_style: DisplayStyle::Base,
        bits,
        unsized_literal: false,
    }
}

/// `v` at `width` bits and signedness `signed`.
pub fn resize_value(v: &IntegerValue, width: usize, signed: bool) -> (r: IntegerValue)
    ensures
        r@ == resize(v@, width, signed),
{
    let n = v.bits.len();
    let mut bits: Vec<LogicBit> = Vec::new();
    let mut i: usize = 0;
    while i < width
        invariant
            i <= width,
            n == v.bits@.len(),
            bits@.len() == i,
            forall|j: int| 0 <= j < i ==> #[trigger] bits@[j] == resize(v@, width, signed).bits[j],
        decreases width - i,
    {
        let b = if i < n {
            v.bits[i]
        } else if v.signed && signed && n > 0 {
            v.bits[n - 1]
        } else {
            LogicBit::Zero
        };
        bits.push(b);
        i = i + 1;
    }
    assert(bits@ =~= resize(v@, width, signed).bits);
    IntegerValue {
        width,
        signed,
        base: v.base,
        base_locked: v.base_locked,
        display_style: v.display_style,
        bits,
        unsized_literal: false,
    }
}

fn value_in_ctx(v: IntegerValue, ctx: Option<ExprMeta>) -> (r: IntegerValue)
    ensures
        r@ == in_ctx(v@, ctx),
{
    match ctx {
        Some(c) => resize_value(&v, c.width, c.signed),
        None => v,
    }
}

fn ext_unsigned_value(v: IntegerValue, ctx: Option<ExprMeta>) -> (r: IntegerValue)
    ensures
        r@ == ext_unsigned(v@, ctx),
{
    match ctx {
        Some(c) => if c.width > v.width {
            resize_value(&v, c.width, false)
        } else {
            v
        },
        None => v,
    }
}

fn ext_cast_value(v: IntegerValue, ctx: Option<ExprMeta>) -> (r: IntegerValue)
    ensures
        r@ == ext_cast(v@, ctx),
{
    match ctx {
        Some(c) => if c.width > v.width {
            resize_value(&v, c.width, c.signed)
        } else {
            v
        },
        None => v,
    }
}

fn one_bit_value(bit: LogicBit, ctx: Option<ExprMeta>) -> (r: IntegerValue)
    ensures
        r@ == one_bit(bit, ctx),
{
    let v = make_computed(1, false, Base::Binary, vec![bit]);
    assert(v@.bits =~= seq![bit]);
    match ctx {
        Some(c) => if c.width > 1 {
            resize_value(&v, c.width, false)
        } else {
            v
        },
        None => v,
    }
}

fn join_values(vals: &Vec<IntegerValue>) -> (r: Vec<LogicBit>)
    ensures
        r@ == join_bits(vals_view(vals@)),
{
    let mut out: Vec<LogicBit> = Vec::new();
    let mut k: usize = vals.len();
    assert(vals@.take(k as int) =~= vals@);
    assert(out@ + join_bits(vals_view(vals@)) =~= join_bits(vals_view(vals@)));
    while k > 0
        invariant
            k <= vals@.len(),
            join_bits(vals_view(vals@)) == out@ + join_bits(vals_view(vals@.take(k as int))),
        decreases k,
    {
        let ghost before = out@;
        let item = &vals[k - 1];
        let mut j: usize = 0;
        while j < item.bits.len()
            invariant
                j <= item.bits@.len(),
                out@ == before + item.bits@.take(j as int),
            decreases item.bits@.len() - j,
        {
            out.push(item.bits[j]);
            j = j + 1;
            assert(out@ =~= before + item.bits@.take(j as int));
        }
        assert(item.bits@.take(j as int) =~= item.bits@);
        assert(vals_view(vals@.take(k as int)).drop_last() =~= vals_view(vals@.take(k - 1)));
        assert(vals_view(vals@.take(k as int)).last() == item@);
        k = k - 1;
        assert(out@ + join_bits(vals_view(vals@.take(k as int))) =~= before + (item.bits@
            + join_bits(vals_view(vals@.take(k as int)))));
    }
    assert(vals_view(vals@.take(0)) =~= Seq::<SVal>::empty());
    assert(out@ + Seq::<LogicBit>::empty() =~= out@);
    out
}

fn repeat_vec(bits: &Vec<LogicBit>, n: usize) -> (r: Vec<LogicBit>)
    ensures
        r@ == repeat_bits(bits@, n as nat),
{
    let mut out: Vec<LogicBit> = Vec::new();
    let mut k: usize = 0;
    while k < n
        invariant
            k <= n,
            repeat_bits(bits@, n as nat) == out@ + repeat_bits(bits@, (n - k) as nat),
        decreases n - k,
    {
        let ghost before = out@;
        let mut j: usize = 0;
        while j < bits.len()
            invariant
                j <= bits@.len(),
                out@ == before + bits@.take(j as int),
            decreases bits@.len() - j,
        {
            out.push(bits[j]);
            j = j + 1;
            assert(out@ =~= before + bits@.take(j as int));
        }
        assert(bits@.take(j as int) =~= bits@);
        assert(repeat_bits(bits@, (n - k) as nat) == bits@ + repeat_bits(bits@, (n - k - 1) as nat));
        k = k + 1;
        assert(before + (bits@ + repeat_bits(bits@, (n - k) as nat)) =~= out@ + repeat_bits(
            bits@,
            (n - k) as nat,
        ));
    }
    assert(out@ + repeat_bits(bits@, 0) =~= out@);
    out
}

fn joined_style_of(vals: &Vec<IntegerValue>) -> (r: DisplayStyle)
    ensures
        r == joined_style(vals_view(vals@)),
{
    let ghost vv = vals_view(vals@);
    let mut saw = false;
    let mut i: usize = 0;
    while i < vals.len()
        invariant
            i <= vals@.len(),
            vv == vals_view(vals@),
            forall|j: int|
                0 <= j < i && #[trigger] vv[j].width != 0 ==> vv[j].style == DisplayStyle::String
                    && vv[j].width % 8 == 0,
            saw == (exists|j: int| 0 <= j < i && #[trigger] vv[j].width != 0),
        decreases vals@.len() - i,
    {
        let item = &vals[i];
        assert(vv[i as int] == item@);
        if item.width != 0 {
            if item.display_style != DisplayStyle::String || item.width % 8 != 0 {
                assert(!(vv[i as int].width != 0 ==> vv[i as int].style == DisplayStyle::String
                    && vv[i as int].width % 8 == 0));
                return DisplayStyle::Base;
            }
            assert(vv[i as int].width != 0);
            saw = true;
        }
        i = i + 1;
    }
    if saw {
        DisplayStyle::String
    } else {
        DisplayStyle::Base
    }
}

/// Whether `e` has an indefinite width.
fn has_indefinite_width(e: &Expr) -> (r: bool)
    ensures
        r == indefinite(view_expr(*e)),
    decreases e,
{
    match e {
        Expr::Literal(l) => l.unsized_literal,
        Expr::RealLiteral(_) => true,
        Expr::Grouped(i) => has_indefinite_width(&**i),
        Expr::Unary { op, expr } => match op {
            UnaryOp::Plus | UnaryOp::Minus | UnaryOp::BitwiseNot => has_indefinite_width(&**expr),
            _ => false,
        },
        Expr::Binary { op, lhs, rhs } => match op {
            BinaryOp::Add | BinaryOp::Subtract | BinaryOp::Multiply | BinaryOp::Divide
            | BinaryOp::Modulus | BinaryOp::BitwiseAnd | BinaryOp::BitwiseOr | BinaryOp::BitwiseXor
            | BinaryOp::BitwiseXnor => has_indefinite_width(&**lhs) || has_indefinite_width(&**rhs),
            BinaryOp::Power | BinaryOp::LogicalShiftLeft | BinaryOp::LogicalShiftRight
            | BinaryOp::ArithmeticShiftLeft | BinaryOp::ArithmeticShiftRight => has_indefinite_width(
                &**lhs,
            ),
            _ => false,
        },
        Expr::Conditional { then_expr, else_expr, .. } => has_indefinite_width(&**then_expr)
            || has_indefinite_width(&**else_expr),
        _ => false,
    }
}

pub proof fn lemma_view_args(s: Seq<SystemArg>)
    ensures
        view_args(s).len() == s.len(),
        forall|i: int|
            0 <= i < s.len() ==> #[trigger] view_args(s)[i] == match s[i] {
                SystemArg::Expr(e) => SArg::Expr(view_expr(e)),
                SystemArg::Null => SArg::Null,
            },
    decreases s.len(),
{
    if s.len() > 0 {
        lemma_view_args(s.drop_last());
    }
}

proof fn lemma_meta_items_err(items: Seq<SExpr>, k: int, vs: Vars)
    requires
        0 <= k <= items.len(),
        smeta_items(items.take(k), vs) is Err,
    ensures
        smeta_items(items, vs) == smeta_items(items.take(k), vs),
    decreases items.len() - k,
{
    if k < items.len() {
        assert(items.take(k + 1).drop_last() =~= items.take(k));
        lemma_meta_items_err(items, k + 1, vs);
    } else {
        assert(items.take(k) =~= items);
    }
}

proof fn lemma_eval_items_err(items: Seq<SExpr>, k: int, vs: Vars)
    requires
        0 <= k <= items.len(),
        sev_items(items.take(k), vs) is Err,
    ensures
        sev_items(items, vs) == sev_items(items.take(k), vs),
    decreases items.len() - k,
{
    if k < items.len() {
        assert(items.take(k + 1).drop_last() =~= items.take(k));
        lemma_eval_items_err(items, k + 1, vs);
    } else {
        assert(items.take(k) =~= items);
    }
}

fn endpoint_of(v: &IntegerValue, role: &str) -> (r: Result<BigInt, String>)
    ensures
        match endpoint(v@, role@) {
            Ok(n) => r matches Ok(b) && bigint_value(b) == n,
            Err(m) => r matches Err(x) && x@ == m,
        },
{
    if v.has_unknown_bits() {
        return Err(err_with("part-select ", role, " contains unknown bits"));
    }
    Ok(v.as_bigint(v.signed))
}

fn part_width_of(m: &BigInt, l: &BigInt) -> (r: Result<usize, String>)
    ensures
        match part_width(bigint_value(*m), bigint_value(*l)) {
            Ok(w) => r == Ok::<usize, String>(w),
            Err(e) => r matches Err(x) && x@ == e,
        },
{
    let d = bigint_sub(m, l);
    let a = if bigint_signum(&d) < 0 {
        bigint_neg(&d)
    } else {
        d
    };
    let w = bigint_add(&a, &bigint_small(1));
    match bigint_to_usize(&w) {
        Some(n) => Ok(n),
        None => Err(owned("part-select width too large")),
    }
}

fn indexed_width_of(v: &IntegerValue) -> (r: Result<usize, String>)
    ensures
        match indexed_width(v@) {
            Ok(w) => r == Ok::<usize, String>(w),
            Err(e) => r matches Err(x) && x@ == e,
        },
{
    if v.has_unknown_bits() {
        return Err(owned("indexed part-select width contains unknown bits"));
    }
    let n = v.as_bigint(v.signed);
    if bigint_signum(&n) <= 0 {
        return Err(owned("indexed part-select width must be positive"));
    }
    match bigint_to_usize(&n) {
        Some(w) => Ok(w),
        None => Err(owned("indexed part-select width too large")),
    }
}

/// The width of a select on a reg declared with `range`.
#[verifier::rlimit(100)]
#[verifier::spinoff_prover]
fn select_width_of(kind: &SelectKind, range: &RegRange, s: &Session) -> (r: Result<usize, String>)
    requires
        s.wf(),
    ensures
        match select_width(
            view_select(*kind),
            bigint_value(range.msb),
            bigint_value(range.lsb),
            s@,
        ) {
            Ok(w) => r == Ok::<usize, String>(w),
            Err(e) => r matches Err(x) && x@ == e,
        },
    decreases kind, 0nat,
{
    match kind {
        SelectKind::Bit { .. } => Ok(1),
        SelectKind::PartConst { msb, lsb } => {
            let mv = match eval_expr(&**msb, None, s) {
                Ok(v) => v,
                Err(e) => return Err(e),
            };
            let ms = match endpoint_of(&mv, "msb") {
                Ok(b) => b,
                Err(e) => return Err(e),
            };
            let lv = match eval_expr(&**lsb, None, s) {
                Ok(v) => v,
                Err(e) => return Err(e),
            };
            let ls = match endpoint_of(&lv, "lsb") {
                Ok(b) => b,
                Err(e) => return Err(e),
            };
            match check_part_select_direction(range, &ms, &ls) {
                Err(e) => Err(e),
                Ok(()) => part_width_of(&ms, &ls),
            }
        },
        SelectKind::PartIndexedUp { width, .. } | SelectKind::PartIndexedDown { width, .. } => {
            match eval_expr(&**width, None, s) {
                Ok(wv) => indexed_width_of(&wv),
                Err(e) => Err(e),
            }
        },
    }
}

/// The bits a select reads from the reg `value`, declared with `range`.
#[verifier::rlimit(100)]
#[verifier::spinoff_prover]
fn select_bits_of(kind: &SelectKind, value: &IntegerValue, range: &RegRange, s: &Session) -> (r:
    Result<Vec<LogicBit>, String>)
    requires
        s.wf(),
        fits_range(value.bits@, bigint_value(range.msb), bigint_value(range.lsb)),
    ensures
        match select_bits(
            view_select(*kind),
            value@,
            bigint_value(range.msb),
            bigint_value(range.lsb),
            s@,
        ) {
            Ok(b) => r matches Ok(x) && x@ == b,
            Err(e) => r matches Err(x) && x@ == e,
        },
    decreases kind, 1nat,
{
    match kind {
        SelectKind::Bit { index } => {
            let iv = match eval_expr(&**index, None, s) {
                Ok(v) => v,
                Err(e) => return Err(e),
            };
            let b = bit_select(value, range, &iv);
            let r = vec![b];
            assert(r@ =~= seq![b]);
            Ok(r)
        },
        SelectKind::PartConst { msb, lsb } => {
            let w = match select_width_of(kind, range, s) {
                Ok(w) => w,
                Err(e) => return Err(e),
            };
            let mv = match eval_expr(&**msb, None, s) {
                Ok(v) => v,
                Err(e) => return Err(e),
            };
            let lv = match eval_expr(&**lsb, None, s) {
                Ok(v) => v,
                Err(e) => return Err(e),
            };
            let ms = mv.as_bigint(mv.signed);
            let ls = lv.as_bigint(lv.signed);
            Ok(materialize_part_select(value, range, &ms, &ls, w))
        },
        SelectKind::PartIndexedUp { base, .. } | SelectKind::PartIndexedDown { base, .. } => {
            let up = match kind {
                SelectKind::PartIndexedUp { .. } => true,
                _ => false,
            };
            let w = match select_width_of(kind, range, s) {
                Ok(w) => w,
                Err(e) => return Err(e),
            };
            let bv = match eval_expr(&**base, None, s) {
                Ok(v) => v,
                Err(e) => return Err(e),
            };
            if bv.has_unknown_bits() {
                let mut out: Vec<LogicBit> = Vec::new();
                let mut i: usize = 0;
                while i < w
                    invariant
                        i <= w,
                        out@ == all_x(i as nat),
                    decreases w - i,
                {
                    out.push(LogicBit::X);
                    i = i + 1;
                    assert(out@ =~= all_x(i as nat));
                }
                return Ok(out);
            }
            let b = bv.as_bigint(bv.signed);
            let (ms, ls) = indexed_select_bounds(range, &b, w, up);
            Ok(materialize_part_select(value, range, &ms, &ls, w))
        },
    }
}

/// The self-determined shapes of `items`.
fn meta_items(items: &Vec<Expr>, s: &Session) -> (r: Result<Vec<ExprMeta>, String>)
    requires
        s.wf(),
    ensures
        match smeta_items(view_exprs(items@), s@) {
            Ok(ms) => r matches Ok(x) && x@ == ms,
            Err(e) => r matches Err(x) && x@ == e,
        },
    decreases items, 0nat,
{
    let ghost vi = view_exprs(items@);
    proof {
        lemma_view_exprs(items@);
    }
    let mut out: Vec<ExprMeta> = Vec::new();
    let mut k: usize = 0;
    assert(vi.take(0) =~= Seq::<SExpr>::empty());
    while k < items.len()
        invariant
            k <= items@.len(),
            vi == view_exprs(items@),
            vi.len() == items@.len(),
            forall|i: int| 0 <= i < items@.len() ==> #[trigger] vi[i] == view_expr(items@[i]),
            smeta_items(vi.take(k as int), s@) == Ok::<Seq<ExprMeta>, Seq<char>>(out@),
            s.wf(),
        decreases items@.len() - k,
    {
        proof {
            assert(decreases_to!(items => items@));
            assert(decreases_to!(items@ => items@[k as int]));
        }
        assert(vi.take(k + 1).drop_last() =~= vi.take(k as int));
        assert(vi.take(k + 1).last() == view_expr(items@[k as int]));
        match infer_expr_meta(&items[k], s) {
            Ok(m) => {
                out.push(m);
            },
            Err(e) => {
                proof {
                    lemma_meta_items_err(vi, k + 1, s@);
                }
                return Err(e);
            },
        }
        k = k + 1;
    }
    assert(vi.take(k as int) =~= vi);
    Ok(out)
}

/// The values of the operands of a concatenation.
fn eval_items(items: &Vec<Expr>, s: &Session) -> (r: Result<Vec<IntegerValue>, String>)
    requires
        s.wf(),
    ensures
        match sev_items(view_exprs(items@), s@) {
            Ok(vals) => r matches Ok(x) && vals_view(x@) == vals,
            Err(e) => r matches Err(x) && x@ == e,
        },
    decreases items, 1nat,
{
    let ghost vi = view_exprs(items@);
    proof {
        lemma_view_exprs(items@);
    }
    let mut out: Vec<IntegerValue> = Vec::new();
    let mut k: usize = 0;
    assert(vi.take(0) =~= Seq::<SExpr>::empty());
    assert(vals_view(out@) =~= Seq::<SVal>::empty());
    while k < items.len()
        invariant
            k <= items@.len(),
            vi == view_exprs(items@),
            vi.len() == items@.len(),
            forall|i: int| 0 <= i < items@.len() ==> #[trigger] vi[i] == view_expr(items@[i]),
            sev_items(vi.take(k as int), s@) == Ok::<Seq<SVal>, Seq<char>>(vals_view(out@)),
            s.wf(),
        decreases items@.len() - k,
    {
        proof {
            assert(decreases_to!(items => items@));
            assert(decreases_to!(items@ => items@[k as int]));
        }
        assert(vi.take(k + 1).drop_last() =~= vi.take(k as int));
        assert(vi.take(k + 1).last() == view_expr(items@[k as int]));
        match eval_item(&items[k], s) {
            Ok(v) => {
                let ghost before = out@;
                let ghost gv = v;
                out.push(v);
                assert(out@ == before.push(gv));
                assert(vals_view(out@) =~= vals_view(before).push(gv@));
            },
            Err(e) => {
                proof {
                    lemma_eval_items_err(vi, k + 1, s@);
                }
                return Err(e);
            },
        }
        k = k + 1;
    }
    assert(vi.take(k as int) =~= vi);
    Ok(out)
}

/// One operand of a concatenation: a replication there may have a zero count.
fn eval_item(e: &Expr, s: &Session) -> (r: Result<IntegerValue, String>)
    requires
        s.wf(),
    ensures
        res_val(r, sev_item(view_expr(*e), s@)),
    decreases e, 3nat,
{
    match e {
        Expr::Grouped(i) => eval_item(&**i, s),
        Expr::Replication { .. } => replicate_value(e, false, s),
        _ => eval_expr(e, None, s),
    }
}

/// The replication `e`; its count must be positive when `strict`.
fn replicate_value(e: &Expr, strict: bool, s: &Session) -> (r: Result<IntegerValue, String>)
    requires
        s.wf(),
    ensures
        res_val(r, replicate(view_expr(*e), strict, s@)),
    decreases e, 0nat,
{
    match e {
        Expr::Replication { count, items } => {
            proof {
                lemma_view_exprs(items@);
            }
            let c = match eval_expr(&**count, None, s) {
                Ok(v) => v,
                Err(m) => return Err(m),
            };
            let n = match replication_count(&c, !strict) {
                Ok(n) => n,
                Err(m) => return Err(m),
            };
            if n == 0 {
                if items.len() == 0 {
                    let r = make_computed(0, false, Base::Binary, Vec::new());
                    assert(r@.bits =~= Seq::<LogicBit>::empty());
                    return Ok(r);
                }
                proof {
                    assert(decreases_to!(e => items));
                    assert(decreases_to!(items => items@));
                    assert(decreases_to!(items@ => items@[0]));
                }
                let m0 = match infer_expr_meta(&items[0], s) {
                    Ok(m) => m,
                    Err(m) => return Err(m),
                };
                let r = make_computed(0, false, m0.base, Vec::new());
                assert(r@.bits =~= Seq::<LogicBit>::empty());
                return Ok(r);
            }
            let vals = match eval_items(items, s) {
                Ok(v) => v,
                Err(m) => return Err(m),
            };
            let inner = join_values(&vals);
            if strict && inner.len() == 0 {
                return Err(owned("concatenation must have at least one operand with positive size"));
            }
            let bits = repeat_vec(&inner, n);
            let style = joined_style_of(&vals);
            assert(vals_view(vals@).len() == vals@.len());
            let base = if vals.len() > 0 {
                vals[0].base
            } else {
                Base::Binary
            };
            proof {
                if vals@.len() == 0 {
                    assert(view_exprs(items@).len() == 0);
                }
            }
            Ok(IntegerValue {
                width: bits.len(),
                signed: false,
                base,
                base_locked: false,
                display_style: style,
                bits,
                unsized_literal: false,
            })
        },
        _ => Err(owned("display placeholder cannot be evaluated")),
    }
}

fn task_error(name: &str) -> (r: String)
    ensures
        r@ == name@ + "() is a system task, it cannot be called as a function."@,
{
    let mut m = owned(name);
    append_str(&mut m, "() is a system task, it cannot be called as a function.");
    m
}

fn string_is_too_long(b: &Vec<u8>) -> (r: bool)
    ensures
        r == string_too_long(b@),
{
    let n = b.len();
    assert((n * 8 > usize::MAX) == (n > usize::MAX / 8)) by (nonlinear_arith);
    n > usize::MAX / 8
}

/// The self-determined width, signedness and base of `e` (LRM 5.4.1).
#[verifier::rlimit(100)]
#[verifier::spinoff_prover]
pub fn infer_expr_meta(e: &Expr, s: &Session) -> (r: Result<ExprMeta, String>)
    requires
        s.wf(),
    ensures
        res_meta(r, smeta(view_expr(*e), s@)),
    decreases e, 1nat,
{
    match e {
        Expr::Literal(l) => Ok(ExprMeta { width: l.width, signed: l.signed, base: l.base }),
        Expr::StringLiteral(b) => {
            if string_is_too_long(b) {
                return Err(owned("string literal too long"));
            }
            let l = string_literal_spec(b.as_slice());
            Ok(ExprMeta { width: l.width, signed: l.signed, base: l.base })
        },
        Expr::RealLiteral(_) => Err(owned("real value has no integer width or signedness")),
        Expr::Grouped(i) => infer_expr_meta(&**i, s),
        Expr::Unary { op, expr } => match op {
            UnaryOp::Plus | UnaryOp::Minus | UnaryOp::BitwiseNot => infer_expr_meta(&**expr, s),
            _ => Ok(ExprMeta { width: 1, signed: false, base: Base::Binary }),
        },
        Expr::Binary { op, lhs, rhs } => {
            let lm = match infer_expr_meta(&**lhs, s) {
                Ok(m) => m,
                Err(m) => return Err(m),
            };
            let rm = match infer_expr_meta(&**rhs, s) {
                Ok(m) => m,
                Err(m) => return Err(m),
            };
            Ok(combine_binary_meta(*op, lm, rm))
        },
        Expr::Conditional { then_expr, else_expr, .. } => {
            let tm = match infer_expr_meta(&**then_expr, s) {
                Ok(m) => m,
                Err(m) => return Err(m),
            };
            let em = match infer_expr_meta(&**else_expr, s) {
                Ok(m) => m,
                Err(m) => return Err(m),
            };
            Ok(conditional_meta(tm, em))
        },
        Expr::Concatenation { items } => match meta_items(items, s) {
            Ok(ms) => Ok(crate::value::concatenation_meta(ms.as_slice())),
            Err(m) => Err(m),
        },
        Expr::Replication { count, items } => {
            let ms = match meta_items(items, s) {
                Ok(ms) => ms,
                Err(m) => return Err(m),
            };
            let c = match eval_expr(&**count, None, s) {
                Ok(v) => v,
                Err(m) => return Err(m),
            };
            let n = match replication_count(&c, true) {
                Ok(n) => n,
                Err(m) => return Err(m),
            };
            Ok(crate::value::replication_meta(ms.as_slice(), n))
        },
        Expr::SystemCall { name, args } => {
            proof {
                lemma_view_args(args@);
            }
            match classify_system_call(name.as_str()) {
                Err(m) => Err(m),
                Ok(SystemCallKind::Task(_)) => Err(task_error(name.as_str())),
                Ok(SystemCallKind::Function(f)) => match f {
                    SystemFunction::RealConversion(k) => match k {
                        RealConversionKind::RealToInteger => Ok(
                            ExprMeta { width: 32, signed: true, base: Base::Decimal },
                        ),
                        RealConversionKind::RealToBits => Ok(
                            ExprMeta { width: 64, signed: false, base: Base::Hex },
                        ),
                        _ => Err(owned("real value has no integer width or signedness")),
                    },
                    SystemFunction::Math(k) => match k {
                        MathFunctionKind::Clog2 => Ok(
                            ExprMeta { width: 32, signed: true, base: Base::Decimal },
                        ),
                        _ => Err(owned("real value has no integer width or signedness")),
                    },
                    SystemFunction::SignCast { signed } => {
                        if args.len() == 0 {
                            return Err(suffixed(name.as_str(), " is missing argument 1"));
                        }
                        match &args[0] {
                            SystemArg::Null => Err(suffixed(name.as_str(), " argument cannot be null")),
                            SystemArg::Expr(x) => {
                                proof {
                                    assert(decreases_to!(e => args));
                                    assert(decreases_to!(args => args@));
                                    assert(decreases_to!(args@ => args@[0]));
                                }
                                match infer_expr_meta(x, s) {
                                    Err(m) => Err(m),
                                    Ok(m) => Ok(ExprMeta { width: m.width, signed, base: m.base }),
                                }
                            },
                        }
                    },
                    SystemFunction::BaseCast(base) => {
                        if args.len() == 0 {
                            return Err(suffixed(name.as_str(), " is missing argument 1"));
                        }
                        match &args[0] {
                            SystemArg::Null => Err(suffixed(name.as_str(), " argument cannot be null")),
                            SystemArg::Expr(x) => {
                                proof {
                                    assert(decreases_to!(e => args));
                                    assert(decreases_to!(args => args@));
                                    assert(decreases_to!(args@ => args@[0]));
                                }
                                match infer_expr_meta(x, s) {
                                    Err(m) => Err(m),
                                    Ok(m) => Ok(ExprMeta { width: m.width, signed: m.signed, base }),
                                }
                            },
                        }
                    },
                },
            }
        },
        Expr::Identifier(n) => match s.lookup(n.as_str()) {
            None => Err(prefixed("undeclared identifier: ", n.as_str())),
            Some(r) => Ok(ExprMeta { width: r.value.width, signed: r.value.signed, base: r.value.base }),
        },
        Expr::Select { name, kind, inner } => match s.lookup(name.as_str()) {
            None => Err(prefixed("undeclared identifier: ", name.as_str())),
            Some(r) => {
                if inner.is_some() {
                    return Err(chained_message(name.as_str()));
                }
                match &r.range {
                    None => Err(prefixed_suffixed("bit-select or part-select on scalar reg `", name.as_str(), "` is illegal")),
                    Some(range) => match select_width_of(kind, range, s) {
                        Err(m) => Err(m),
                        Ok(w) => Ok(ExprMeta { width: w, signed: false, base: r.value.base }),
                    },
                }
            },
        },
        Expr::Truncated => Err(owned("display placeholder cannot be evaluated")),
    }
}

fn chained_message(name: &str) -> (r: String)
    ensures
        r@ == chained_error(name@),
{
    let mut m = owned("chained select on `");
    append_str(&mut m, name);
    append_str(&mut m, "` is illegal: `");
    append_str(&mut m, name);
    append_str(&mut m, "` is not an array");
    m
}

/// The value of `e` under the context `ctx` (none: self-determined).
#[verifier::spinoff_prover]
pub fn eval_expr(e: &Expr, ctx: Option<ExprMeta>, s: &Session) -> (r: Result<IntegerValue, String>)
    requires
        s.wf(),
    ensures
        res_val(r, sev(view_expr(*e), ctx, s@)),
    decreases e, 2nat,
{
    match e {
        Expr::Literal(l) => Ok(value_in_ctx(l.materialize(), ctx)),
        Expr::StringLiteral(b) => {
            if string_is_too_long(b) {
                return Err(owned("string literal too long"));
            }
            let mut v = string_literal_spec(b.as_slice()).materialize();
            v.display_style = DisplayStyle::String;
            Ok(value_in_ctx(v, ctx))
        },
        Expr::RealLiteral(_) => Err(owned("real value cannot be used as an integer expression here")),
        Expr::Grouped(i) => eval_expr(&**i, ctx, s),
        Expr::Unary { .. } => eval_unary(e, ctx, s),
        Expr::Binary { .. } => eval_binary(e, ctx, s),
        Expr::Conditional { .. } => eval_conditional(e, ctx, s),
        Expr::Concatenation { .. } => eval_concatenation(e, ctx, s),
        Expr::Replication { .. } => match replicate_value(e, true, s) {
            Ok(v) => Ok(ext_unsigned_value(v, ctx)),
            Err(x) => Err(x),
        },
        Expr::SystemCall { .. } => eval_systemcall(e, ctx, s),
        Expr::Identifier(n) => match s.lookup(n.as_str()) {
            None => Err(prefixed("undeclared identifier: ", n.as_str())),
            Some(r) => Ok(value_in_ctx(copy_value(&r.value), ctx)),
        },
        Expr::Select { .. } => eval_select(e, ctx, s),
        Expr::Truncated => Err(owned("display placeholder cannot be evaluated")),
    }
}

#[verifier::rlimit(100)]
#[verifier::spinoff_prover]
fn eval_unary(e: &Expr, ctx: Option<ExprMeta>, s: &Session) -> (r: Result<IntegerValue, String>)
    requires
        s.wf(),
        e is Unary,
    ensures
        res_val(r, sev_unary(view_expr(*e), ctx, s@)),
    decreases e, 0nat,
{
    match e {
        Expr::Unary { op, expr } => {
            let op = *op;
            match op {
                UnaryOp::Plus | UnaryOp::Minus | UnaryOp::BitwiseNot => {
                    let m = match infer_expr_meta(&**expr, s) {
                        Ok(m) => m,
                        Err(x) => return Err(x),
                    };
                    let eff = effective_meta(m, ctx);
                    let v = match eval_expr(&**expr, Some(eff), s) {
                        Ok(v) => v,
                        Err(x) => return Err(x),
                    };
                    match op {
                        UnaryOp::Plus => Ok(v),
                        UnaryOp::BitwiseNot => {
                            let bits = not_vector(v.bits.as_slice());
                            assert(bits@ =~= Seq::new(v.bits@.len(), |i: int| not_bit(v.bits@[i])));
                            Ok(make_computed(eff.width, eff.signed, m.base, bits))
                        },
                        _ => {
                            let bits = negate_bits(&v, eff.signed, eff.width);
                            Ok(make_computed(eff.width, eff.signed, m.base, bits))
                        },
                    }
                },
                _ => {
                    let v = match eval_expr(&**expr, None, s) {
                        Ok(v) => v,
                        Err(x) => return Err(x),
                    };
                    let bit = match op {
                        UnaryOp::LogicalNot => match logical_value(&v) {
                            LogicBit::One => LogicBit::Zero,
                            LogicBit::Zero => LogicBit::One,
                            _ => LogicBit::X,
                        },
                        _ => reduce_bits(op, v.bits.as_slice()),
                    };
                    Ok(one_bit_value(bit, ctx))
                },
            }
        },
        _ => Err(owned("display placeholder cannot be evaluated")),
    }
}

#[verifier::rlimit(100)]
#[verifier::spinoff_prover]
fn eval_binary(e: &Expr, ctx: Option<ExprMeta>, s: &Session) -> (r: Result<IntegerValue, String>)
    requires
        s.wf(),
        e is Binary,
    ensures
        res_val(r, sev_binary(view_expr(*e), ctx, s@)),
    decreases e, 0nat,
{
    match e {
        Expr::Binary { op, lhs, rhs } => {
            let op = *op;
            let lm = match infer_expr_meta(&**lhs, s) {
                Ok(m) => m,
                Err(x) => return Err(x),
            };
            let rm = match infer_expr_meta(&**rhs, s) {
                Ok(m) => m,
                Err(x) => return Err(x),
            };
            match op {
                BinaryOp::LessThan | BinaryOp::GreaterThan | BinaryOp::LessThanOrEqual
                | BinaryOp::GreaterThanOrEqual | BinaryOp::Equal | BinaryOp::NotEqual
                | BinaryOp::CaseEqual | BinaryOp::CaseNotEqual => {
                    let w = if lm.width >= rm.width {
                        lm.width
                    } else {
                        rm.width
                    };
                    let sg = lm.signed && rm.signed;
                    let lv = match eval_expr(&**lhs, Some(ExprMeta { width: w, signed: sg, base: lm.base }), s) {
                        Ok(v) => v,
                        Err(x) => return Err(x),
                    };
                    let rv = match eval_expr(&**rhs, Some(ExprMeta { width: w, signed: sg, base: rm.base }), s) {
                        Ok(v) => v,
                        Err(x) => return Err(x),
                    };
                    let bit = match op {
                        BinaryOp::LessThan | BinaryOp::GreaterThan | BinaryOp::LessThanOrEqual
                        | BinaryOp::GreaterThanOrEqual => relational_bit(op, &lv, &rv, sg),
                        _ => equality_bit(op, &lv, &rv),
                    };
                    Ok(one_bit_value(bit, ctx))
                },
                BinaryOp::LogicalAnd | BinaryOp::LogicalOr => {
                    let lv = match eval_expr(&**lhs, None, s) {
                        Ok(v) => v,
                        Err(x) => return Err(x),
                    };
                    let rv = match eval_expr(&**rhs, None, s) {
                        Ok(v) => v,
                        Err(x) => return Err(x),
                    };
                    Ok(one_bit_value(logical_binary_bit(op, &lv, &rv), ctx))
                },
                BinaryOp::LogicalShiftLeft | BinaryOp::LogicalShiftRight
                | BinaryOp::ArithmeticShiftLeft | BinaryOp::ArithmeticShiftRight => {
                    let eff = effective_meta(lm, ctx);
                    let lv = match eval_expr(&**lhs, Some(eff), s) {
                        Ok(v) => v,
                        Err(x) => return Err(x),
                    };
                    let rv = match eval_expr(&**rhs, None, s) {
                        Ok(v) => v,
                        Err(x) => return Err(x),
                    };
                    let bits = shift_result_bits(op, &lv, &rv, eff.signed, eff.width);
                    Ok(make_computed(eff.width, eff.signed, lm.base, bits))
                },
                _ => {
                    let meta = combine_binary_meta(op, lm, rm);
                    let ew = effective_meta(meta, ctx).width;
                    let eff = ExprMeta { width: ew, signed: meta.signed, base: meta.base };
                    match op {
                        BinaryOp::Power => {
                            let lv = match eval_expr(&**lhs, Some(ExprMeta { width: ew, signed: lm.signed, base: lm.base }), s) {
                                Ok(v) => v,
                                Err(x) => return Err(x),
                            };
                            let xv = match eval_expr(&**rhs, None, s) {
                                Ok(v) => v,
                                Err(x) => return Err(x),
                            };
                            let bits = power_bits(&lv, lm.signed, &xv, ew);
                            Ok(make_computed(ew, lm.signed, lm.base, bits))
                        },
                        _ => {
                            let lv = match eval_expr(&**lhs, Some(eff), s) {
                                Ok(v) => v,
                                Err(x) => return Err(x),
                            };
                            let rv = match eval_expr(&**rhs, Some(eff), s) {
                                Ok(v) => v,
                                Err(x) => return Err(x),
                            };
                            match op {
                                BinaryOp::BitwiseAnd | BinaryOp::BitwiseOr | BinaryOp::BitwiseXor
                                | BinaryOp::BitwiseXnor => {
                                    let bits = bitwise_vector(op, lv.bits.as_slice(), rv.bits.as_slice());
                                    assert(bits@ =~= Seq::new(
                                        min_len(lv.bits@, rv.bits@),
                                        |i: int| bitwise_table(op, lv.bits@[i], rv.bits@[i]),
                                    ));
                                    Ok(make_computed(ew, eff.signed, eff.base, bits))
                                },
                                _ => {
                                    let bits = arithmetic_bits(op, &lv, &rv, meta.signed, ew);
                                    Ok(make_computed(ew, meta.signed, meta.base, bits))
                                },
                            }
                        },
                    }
                },
            }
        },
        _ => Err(owned("display placeholder cannot be evaluated")),
    }
}

#[verifier::rlimit(100)]
#[verifier::spinoff_prover]
fn eval_conditional(e: &Expr, ctx: Option<ExprMeta>, s: &Session) -> (r: Result<IntegerValue, String>)
    requires
        s.wf(),
        e is Conditional,
    ensures
        res_val(r, sev_conditional(view_expr(*e), ctx, s@)),
    decreases e, 0nat,
{
    match e {
        Expr::Conditional { cond, then_expr, else_expr } => {
            let tm = match infer_expr_meta(&**then_expr, s) {
                Ok(m) => m,
                Err(x) => return Err(x),
            };
            let em = match infer_expr_meta(&**else_expr, s) {
                Ok(m) => m,
                Err(x) => return Err(x),
            };
            let meta = conditional_meta(tm, em);
            let eff = effective_meta(meta, ctx);
            let cv = match eval_expr(&**cond, None, s) {
                Ok(v) => v,
                Err(x) => return Err(x),
            };
            match logical_value(&cv) {
                LogicBit::One => match eval_expr(&**then_expr, Some(eff), s) {
                    Ok(v) => Ok(make_computed(eff.width, eff.signed, meta.base, v.bits)),
                    Err(x) => Err(x),
                },
                LogicBit::Zero => match eval_expr(&**else_expr, Some(eff), s) {
                    Ok(v) => Ok(make_computed(eff.width, eff.signed, meta.base, v.bits)),
                    Err(x) => Err(x),
                },
                _ => {
                    let tv = match eval_expr(&**then_expr, Some(eff), s) {
                        Ok(v) => v,
                        Err(x) => return Err(x),
                    };
                    let fv = match eval_expr(&**else_expr, Some(eff), s) {
                        Ok(v) => v,
                        Err(x) => return Err(x),
                    };
                    let bits = merge_conditional(tv.bits.as_slice(), fv.bits.as_slice());
                    assert(bits@ =~= Seq::new(
                        min_len(tv.bits@, fv.bits@),
                        |i: int| merge_bit(tv.bits@[i], fv.bits@[i]),
                    ));
                    Ok(make_computed(eff.width, eff.signed, meta.base, bits))
                },
            }
        },
        _ => Err(owned("display placeholder cannot be evaluated")),
    }
}

#[verifier::rlimit(100)]
#[verifier::spinoff_prover]
fn eval_concatenation(e: &Expr, ctx: Option<ExprMeta>, s: &Session) -> (r: Result<IntegerValue, String>)
    requires
        s.wf(),
        e is Concatenation,
    ensures
        res_val(r, sev_concat(view_expr(*e), ctx, s@)),
    decreases e, 0nat,
{
    match e {
        Expr::Concatenation { items } => {
            proof {
                lemma_view_exprs(items@);
            }
            if items.len() == 0 {
                return Err(owned("concatenation requires at least one operand"));
            }
            let mut k: usize = 0;
            let mut bad = false;
            while k < items.len() && !bad
                invariant
                    k <= items@.len(),
                    view_exprs(items@).len() == items@.len(),
                    forall|i: int| 0 <= i < items@.len() ==> #[trigger] view_exprs(items@)[i] == view_expr(items@[i]),
                    !bad ==> forall|i: int| 0 <= i < k ==> !indefinite(#[trigger] view_exprs(items@)[i]),
                    bad ==> k < items@.len() && indefinite(view_exprs(items@)[k as int]),
                decreases items@.len() - k + (if bad { 0int } else { 1int }),
            {
                if has_indefinite_width(&items[k]) {
                    bad = true;
                } else {
                    k = k + 1;
                }
            }
            if bad {
                assert(indefinite(view_exprs(items@)[k as int]));
                return Err(owned("concatenation operand has indefinite width"));
            }
            let vals = match eval_items(items, s) {
                Ok(v) => v,
                Err(x) => return Err(x),
            };
            let bits = join_values(&vals);
            if bits.len() == 0 {
                return Err(owned("concatenation must have at least one operand with positive size"));
            }
            let style = joined_style_of(&vals);
            let base = if vals.len() > 0 {
                vals[0].base
            } else {
                Base::Binary
            };
            assert(vals_view(vals@).len() == vals@.len());
            Ok(ext_unsigned_value(
                IntegerValue {
                    width: bits.len(),
                    signed: false,
                    base,
                    base_locked: false,
                    display_style: style,
                    bits,
                    unsized_literal: false,
                },
                ctx,
            ))
        },
        _ => Err(owned("display placeholder cannot be evaluated")),
    }
}

#[verifier::rlimit(100)]
#[verifier::spinoff_prover]
fn eval_systemcall(e: &Expr, ctx: Option<ExprMeta>, s: &Session) -> (r: Result<IntegerValue, String>)
    requires
        s.wf(),
        e is SystemCall,
    ensures
        res_val(r, sev_syscall(view_expr(*e), ctx, s@)),
    decreases e, 0nat,
{
    match e {
        Expr::SystemCall { name, args } => {
            proof {
                lemma_view_args(args@);
            }
            let f = match classify_system_call(name.as_str()) {
                Err(m) => return Err(m),
                Ok(SystemCallKind::Task(_)) => return Err(task_error(name.as_str())),
                Ok(SystemCallKind::Function(f)) => f,
            };
            let usable = match f {
                SystemFunction::SignCast { .. } | SystemFunction::BaseCast(_) => true,
                SystemFunction::Math(MathFunctionKind::Clog2) => true,
                _ => false,
            };
            if !usable {
                return Err(owned("real value cannot be used as an integer expression here"));
            }
            if args.len() == 0 {
                return Err(suffixed(name.as_str(), " is missing argument 1"));
            }
            let x = match &args[0] {
                SystemArg::Null => return Err(suffixed(name.as_str(), " argument cannot be null")),
                SystemArg::Expr(x) => x,
            };
            proof {
                assert(decreases_to!(e => args));
                assert(decreases_to!(args => args@));
                assert(decreases_to!(args@ => args@[0]));
            }
            let v = match eval_expr(x, None, s) {
                Ok(v) => v,
                Err(m) => return Err(m),
            };
            match f {
                SystemFunction::SignCast { signed } => Ok(ext_cast_value(
                    make_computed(v.width, signed, v.base, v.bits),
                    ctx,
                )),
                SystemFunction::BaseCast(base) => Ok(ext_cast_value(
                    make_computed(v.width, v.signed, base, v.bits),
                    ctx,
                )),
                _ => Ok(ext_cast_value(make_computed(32, true, Base::Decimal, clog2_bits(&v)), ctx)),
            }
        },
        _ => Err(owned("display placeholder cannot be evaluated")),
    }
}

#[verifier::rlimit(100)]
#[verifier::spinoff_prover]
fn eval_select(e: &Expr, ctx: Option<ExprMeta>, s: &Session) -> (r: Result<IntegerValue, String>)
    requires
        s.wf(),
        e is Select,
    ensures
        res_val(r, sev_select(view_expr(*e), ctx, s@)),
    decreases e, 0nat,
{
    match e {
        Expr::Select { name, kind, inner } => {
            let i = match s.position(name.as_str()) {
                None => return Err(prefixed("undeclared identifier: ", name.as_str())),
                Some(i) => i,
            };
            let r = &s.vars[i].1;
            if inner.is_some() {
                return Err(chained_message(name.as_str()));
            }
            proof {
                assert(s@[i as int].1 == r@);
            }
            match &r.range {
                None => Err(prefixed_suffixed("bit-select or part-select on scalar reg `", name.as_str(), "` is illegal")),
                Some(range) => match select_bits_of(kind, &r.value, range, s) {
                    Err(m) => Err(m),
                    Ok(bits) => Ok(value_in_ctx(make_computed(bits.len(), false, r.value.base, bits), ctx)),
                },
            }
        },
        _ => Err(owned("display placeholder cannot be evaluated")),
    }
}

fn prefixed_suffixed(prefix: &str, name: &str, suffix: &str) -> (r: String)
    ensures
        r@ == prefix@ + name@ + suffix@,
{
    err_with(prefix, name, suffix)
}

/// A copy of `v`.
pub fn copy_value(v: &IntegerValue) -> (r: IntegerValue)
    ensures
        r@ == v@,
        r.unsized_literal == v.unsized_literal,
{
    let mut bits: Vec<LogicBit> = Vec::new();
    let mut i: usize = 0;
    while i < v.bits.len()
        invariant
            i <= v.bits@.len(),
            bits@ == v.bits@.take(i as int),
        decreases v.bits@.len() - i,
    {
        bits.push(v.bits[i]);
        i = i + 1;
        assert(bits@ =~= v.bits@.take(i as int));
    }
    assert(v.bits@.take(i as int) =~= v.bits@);
    IntegerValue {
        width: v.width,
        signed: v.signed,
        base: v.base,
        base_locked: v.base_locked,
        display_style: v.display_style,
        bits,
        unsized_literal: v.unsized_literal,
    }
}

// ----- statements -----
pub open spec fn semantic(m: Seq<char>) -> Seq<char> {
    "Semantic error: "@ + m
}

/// A top-level expression: checked for shape first, then evaluated.
pub open spec fn top_value(e: SExpr, ctx: Option<ExprMeta>, vs: Vars) -> Result<SVal, Seq<char>> {
    match smeta(e, vs) {
        Err(m) => Err(semantic(m)),
        Ok(_) => sev(e, ctx, vs),
    }
}

/// `vs` with `name` bound to `r`: in place of an earlier binding, or added.
pub open spec fn insert_var(vs: Vars, name: Seq<char>, r: SReg) -> Vars {
    match find_from(vs, name, 0) {
        Some(i) => vs.update(i, (name, r)),
        None => vs.push((name, r)),
    }
}

/// The storage shape a declaration gives each of its names.
pub struct DeclShape {
    pub width: usize,
    pub signed: bool,
    pub base: Base,
    pub locked: bool,
    pub range: Option<(int, int)>,
}

pub open spec fn range_end(e: SExpr, role: Seq<char>, vs: Vars) -> Result<int, Seq<char>> {
    match top_value(e, None, vs) {
        Err(m) => Err(m),
        Ok(v) => if has_unknown(v.bits) {
            Err("Semantic error: reg range "@ + role + " contains unknown bits"@)
        } else {
            Ok(int_value(v.bits, v.signed))
        },
    }
}

/// `reg [m:l]` takes `|m - l| + 1` bits, a scalar `reg` one bit; `integer`
/// is `signed [31:0]`, shown in decimal.
pub open spec fn decl_shape(
    kind: crate::ast::DeclKind,
    signed: bool,
    range: Option<(SExpr, SExpr)>,
    vs: Vars,
) -> Result<DeclShape, Seq<char>> {
    if kind == crate::ast::DeclKind::Integer {
        Ok(DeclShape { width: 32, signed: true, base: Base::Decimal, locked: true, range: Some((31, 0)) })
    } else if kind == crate::ast::DeclKind::Real {
        Err(real_decl_error())
    } else {
        match range {
            None => Ok(DeclShape { width: 1, signed, base: Base::Binary, locked: false, range: None }),
            Some((m, l)) => match range_end(m, "msb"@, vs) {
                Err(e) => Err(e),
                Ok(mv) => match range_end(l, "lsb"@, vs) {
                    Err(e) => Err(e),
                    Ok(lv) => if abs(mv - lv) + 1 > usize::MAX {
                        Err("Semantic error: reg range width too large"@)
                    } else {
                        Ok(
                            DeclShape {
                                width: (abs(mv - lv) + 1) as usize,
                                signed,
                                base: Base::Binary,
                                locked: false,
                                range: Some((mv, lv)),
                            },
                        )
                    },
                },
            },
        }
    }
}

pub open spec fn real_decl_error() -> Seq<char> {
    "real variables are evaluated outside the integer evaluator"@
}

pub open spec fn array_decl_error(name: Seq<char>) -> Seq<char> {
    "array variable `"@ + name + "` is not supported by the integer evaluator"@
}

/// The value a declared name starts with: its initializer evaluated in the
/// declaration's context and brought to its width, or all `x`.
pub open spec fn init_value(init: Option<SExpr>, sh: DeclShape, vs: Vars) -> Result<SVal, Seq<char>> {
    match init {
        None => Ok(
            SVal {
                width: sh.width,
                signed: sh.signed,
                base: sh.base,
                locked: sh.locked,
                style: DisplayStyle::Base,
                bits: all_x(sh.width as nat),
            },
        ),
        Some(x) => match top_value(
            x,
            Some(ExprMeta { width: sh.width, signed: sh.signed, base: sh.base }),
            vs,
        ) {
            Err(m) => Err(m),
            Ok(v) => {
                let sized = resize(v, sh.width, sh.signed);
                Ok(
                    SVal {
                        width: sh.width,
                        signed: sh.signed,
                        base: if sh.locked || !v.locked {
                            sh.base
                        } else {
                            v.base
                        },
                        locked: sh.locked || v.locked,
                        style: DisplayStyle::Base,
                        bits: sized.bits,
                    },
                )
            },
        },
    }
}

/// The names of a declaration bound one after the other, each initializer
/// seeing the names before it.
pub open spec fn decl_names(names: Seq<crate::ast::SDeclName>, sh: DeclShape, vs: Vars) -> Result<
    Vars,
    Seq<char>,
>
    decreases names.len(),
{
    if names.len() == 0 {
        Ok(vs)
    } else {
        match decl_names(names.drop_last(), sh, vs) {
            Err(m) => Err(m),
            Ok(staged) => {
                let d = names.last();
                if d.dim is Some {
                    Err(array_decl_error(d.name))
                } else {
                    match init_value(d.init, sh, staged) {
                        Err(m) => Err(m),
                        Ok(v) => Ok(insert_var(staged, d.name, SReg { range: sh.range, value: v })),
                    }
                }
            },
        }
    }
}

/// Assigning `rhs` to the whole variable `n`: the value is evaluated in the
/// variable's context and brought to its width; a variable whose base is not
/// yet fixed takes the base of a literal-derived value.
pub open spec fn assign_name(n: Seq<char>, rhs: SExpr, vs: Vars) -> Result<(SVal, Vars), Seq<char>> {
    match lookup(vs, n) {
        None => Err(semantic(undeclared(n))),
        Some(r) => {
            let old = r.value;
            match top_value(rhs, Some(meta_of(old)), vs) {
                Err(m) => Err(m),
                Ok(v) => {
                    let sized = resize(v, old.width, old.signed);
                    let nv = SVal {
                        width: old.width,
                        signed: old.signed,
                        base: if !old.locked && v.locked {
                            v.base
                        } else {
                            old.base
                        },
                        locked: old.locked || v.locked,
                        style: DisplayStyle::Base,
                        bits: sized.bits,
                    };
                    Ok((nv, insert_var(vs, n, SReg { range: r.range, value: nv })))
                },
            }
        },
    }
}

pub open spec fn unsupported_target() -> Seq<char> {
    "Semantic error: only a whole variable can be assigned by the integer evaluator"@
}

/// What a statement writes (task bytes), shows, whether it ends the session,
/// and the variables after it.
pub open spec fn spec_stmt(vs: Vars, st: crate::ast::SStmt) -> Result<
    (Seq<u8>, Seq<char>, bool, Vars),
    Seq<char>,
> {
    match st {
        crate::ast::SStmt::Expr(e) => match crate::width::ungrouped(e) {
            SExpr::SystemCall { name, args } => match classify(name) {
                Ok(SystemCallKind::Task(t)) => task_effect(t, name, args, vs),
                _ => expr_effect(e, vs),
            },
            _ => expr_effect(e, vs),
        },
        crate::ast::SStmt::Decl { kind, signed, range, names } => match decl_shape(
            kind,
            signed,
            range,
            vs,
        ) {
            Err(m) => Err(m),
            Ok(sh) => match decl_names(names, sh, vs) {
                Err(m) => Err(m),
                Ok(nv) => Ok((Seq::empty(), Seq::empty(), false, nv)),
            },
        },
        crate::ast::SStmt::Assign { lvalue, rhs } => match lvalue {
            crate::ast::SLValue::Name(n) => match assign_name(n, rhs, vs) {
                Err(m) => Err(m),
                Ok((v, nv)) => Ok((Seq::empty(), crate::canonical::canonical_text(v), false, nv)),
            },
            _ => Err(unsupported_target()),
        },
    }
}

pub open spec fn expr_effect(e: SExpr, vs: Vars) -> Result<(Seq<u8>, Seq<char>, bool, Vars), Seq<char>> {
    match top_value(e, None, vs) {
        Err(m) => Err(m),
        Ok(v) => Ok((Seq::empty(), crate::canonical::canonical_text(v), false, vs)),
    }
}

/// The radix in which a task shows a value without a format: decimal for
/// `$display` / `$write`, binary, octal or hex for their `b` / `o` / `h` forms.
pub open spec fn task_base(t: crate::system::SystemTask) -> Base {
    match t {
        crate::system::SystemTask::DisplayB | crate::system::SystemTask::WriteB => Base::Binary,
        crate::system::SystemTask::DisplayO | crate::system::SystemTask::WriteO => Base::Octal,
        crate::system::SystemTask::DisplayH | crate::system::SystemTask::WriteH => Base::Hex,
        _ => Base::Decimal,
    }
}

pub open spec fn task_newline(t: crate::system::SystemTask) -> bool {
    t == crate::system::SystemTask::Display || t == crate::system::SystemTask::DisplayB || t
        == crate::system::SystemTask::DisplayO || t == crate::system::SystemTask::DisplayH
}

/// The arguments of a display task in order: each value (`true`) with its
/// digits in `base`, each empty argument (`false`) as a space; the first
/// argument that fails to evaluate gives the error.
pub open spec fn display_items(args: Seq<SArg>, base: Base, vs: Vars) -> Result<
    Seq<(bool, Seq<char>)>,
    Seq<char>,
>
    decreases args.len(),
{
    if args.len() == 0 {
        Ok(Seq::empty())
    } else {
        match display_items(args.drop_last(), base, vs) {
            Err(m) => Err(m),
            Ok(prev) => match args.last() {
                SArg::Null => Ok(prev.push((false, seq![' ']))),
                SArg::Expr(e) => match top_value(e, None, vs) {
                    Err(m) => Err(m),
                    Ok(v) => Ok(prev.push((true, crate::canonical::display_text(v, base)))),
                },
            },
        }
    }
}

/// The items' texts in order, with a space between two adjacent values.
pub open spec fn join_display(items: Seq<(bool, Seq<char>)>) -> Seq<char>
    decreases items.len(),
{
    if items.len() == 0 {
        Seq::empty()
    } else {
        join_display(items.drop_last()) + (if items.len() > 1 && items[items.len() - 2].0
            && items.last().0 {
            seq![' ']
        } else {
            Seq::empty()
        }) + items.last().1
    }
}

/// The bytes of an ASCII text.
pub open spec fn ascii_bytes(t: Seq<char>) -> Seq<u8> {
    Seq::new(t.len(), |i: int| t[i] as u8)
}

/// `$finish` / `$stop` end the session; the display tasks write their
/// arguments (and, for `$display`, a newline).
pub open spec fn task_effect(t: crate::system::SystemTask, name: Seq<char>, args: Seq<SArg>, vs: Vars) -> Result<
    (Seq<u8>, Seq<char>, bool, Vars),
    Seq<char>,
> {
    if t == crate::system::SystemTask::Finish || t == crate::system::SystemTask::Stop {
        Ok((Seq::empty(), Seq::empty(), true, vs))
    } else {
        match display_items(args, task_base(t), vs) {
            Err(m) => Err(m),
            Ok(items) => Ok(
                (
                    ascii_bytes(join_display(items)) + (if task_newline(t) {
                        seq![10u8]
                    } else {
                        Seq::empty()
                    }),
                    Seq::empty(),
                    false,
                    vs,
                ),
            ),
        }
    }
}

proof fn lemma_display_error_stays(args: Seq<SArg>, base: Base, vs: Vars, k: int, n: int)
    requires
        0 <= k <= n <= args.len(),
        display_items(args.take(k), base, vs) is Err,
    ensures
        display_items(args.take(n), base, vs) == display_items(args.take(k), base, vs),
    decreases n - k,
{
    if n > k {
        lemma_display_error_stays(args, base, vs, k, n - 1);
        assert(args.take(n).drop_last() =~= args.take(n - 1));
    }
}

// ----- sessions -----
/// The progress through the statements of one input.
pub struct RunState {
    pub task: Seq<u8>,
    pub last: Seq<char>,
    pub last_expr: bool,
    pub exit: bool,
    pub vars: Vars,
}

/// The statements run in order, stopping at an error or at `$finish`.
pub open spec fn run_stmts(vs: Vars, stmts: Seq<crate::ast::SStmt>) -> Result<RunState, (Seq<char>, Vars)>
    decreases stmts.len(),
{
    if stmts.len() == 0 {
        Ok(RunState { task: Seq::empty(), last: Seq::empty(), last_expr: false, exit: false, vars: vs })
    } else {
        match run_stmts(vs, stmts.drop_last()) {
            Err(x) => Err(x),
            Ok(st) => if st.exit {
                Ok(st)
            } else {
                match spec_stmt(st.vars, stmts.last()) {
                    Err(m) => Err((m, st.vars)),
                    Ok((t, o, x, nv)) => Ok(
                        RunState {
                            task: st.task + t,
                            last: o,
                            last_expr: stmts.last() is Expr,
                            exit: x,
                            vars: nv,
                        },
                    ),
                }
            },
        }
    }
}

/// One input line of the calculator: its task output, the value it shows (the
/// last statement's, when that is an expression and the line does not end
/// with `;`), whether it ends the session — or its error — and the
/// variables afterwards. Statements before an error keep their effect.
pub open spec fn spec_eval(vs: Vars, input: Seq<char>) -> (
    Result<(Seq<u8>, Seq<char>, bool), Seq<char>>,
    Vars,
) {
    let t = crate::text::trimmed(input);
    if t.len() == 0 {
        (Ok((Seq::empty(), Seq::empty(), false)), vs)
    } else {
        match crate::parser::spec_parse_statements(t) {
            Err(m) => (Err("Syntax error: "@ + m), vs),
            Ok((stmts, semi)) => match run_stmts(vs, stmts) {
                Err((m, v)) => (Err(m), v),
                Ok(st) => (
                    Ok(
                        (
                            st.task,
                            if st.exit || semi || !st.last_expr {
                                Seq::empty()
                            } else {
                                st.last
                            },
                            st.exit,
                        ),
                    ),
                    st.vars,
                ),
            },
        }
    }
}

proof fn lemma_find_from(vs: Vars, name: Seq<char>, i: int)
    requires
        0 <= i,
    ensures
        find_from(vs, name, i) matches Some(j) ==> i <= j < vs.len() && vs[j].0 == name && forall|k: int| i <= k < j ==> #[trigger] vs[k].0 != name,
        find_from(vs, name, i) is None ==> forall|k: int| i <= k < vs.len() ==> #[trigger] vs[k].0 != name,
    decreases vs.len() - i,
{
    if i < vs.len() && vs[i].0 != name {
        lemma_find_from(vs, name, i + 1);
    }
}

proof fn lemma_lookup_insert(vs: Vars, n: Seq<char>, r: SReg, m: Seq<char>)
    ensures
        lookup(insert_var(vs, n, r), m) == if m == n {
            Some(r)
        } else {
            lookup(vs, m)
        },
{
    let nv = insert_var(vs, n, r);
    lemma_find_from(vs, n, 0);
    lemma_find_from(vs, m, 0);
    lemma_find_from(nv, m, 0);
    match find_from(vs, n, 0) {
        Some(i) => {
            assert(nv == vs.update(i, (n, r)));
            assert forall|k: int| 0 <= k < nv.len() implies (#[trigger] nv[k]).0 == vs[k].0 by {}
            match (find_from(vs, m, 0), find_from(nv, m, 0)) {
                (Some(a), Some(b)) => {
                    assert(nv[a].0 == m);
                    assert(vs[b].0 == m);
                    assert(a == b);
                },
                (Some(a), None) => {
                    assert(nv[a].0 == m);
                },
                (None, Some(b)) => {
                    assert(vs[b].0 == m);
                },
                (None, None) => {},
            }
        },
        None => {
            assert(nv == vs.push((n, r)));
            assert forall|k: int| 0 <= k < vs.len() implies (#[trigger] nv[k]).0 == vs[k].0 by {}
            assert(nv[vs.len() as int].0 == n);
            match (find_from(vs, m, 0), find_from(nv, m, 0)) {
                (Some(a), Some(b)) => {
                    assert(nv[a].0 == m);
                    if b < vs.len() {
                        assert(vs[b].0 == m);
                    }
                    assert(a == b);
                },
                (Some(a), None) => {
                    assert(nv[a].0 == m);
                },
                (None, Some(b)) => {
                    if b < vs.len() {
                        assert(vs[b].0 == m);
                    }
                },
                (None, None) => {
                    if m == n {
                        assert(nv[vs.len() as int].0 == m);
                    }
                },
            }
        },
    }
}

/// After an assignment to a whole variable, reading the variable gives back
/// the value the assignment stored, at the variable's declared width and
/// signedness, and every other variable reads as before.
pub proof fn lemma_assign_read_back(n: Seq<char>, rhs: SExpr, vs: Vars, m: Seq<char>)
    requires
        assign_name(n, rhs, vs) is Ok,
    ensures
        sev(SExpr::Identifier(n), None, assign_name(n, rhs, vs)->Ok_0.1) == Ok::<SVal, Seq<char>>(
            assign_name(n, rhs, vs)->Ok_0.0,
        ),
        smeta(SExpr::Identifier(n), assign_name(n, rhs, vs)->Ok_0.1) == Ok::<ExprMeta, Seq<char>>(
            meta_of(assign_name(n, rhs, vs)->Ok_0.0),
        ),
        assign_name(n, rhs, vs)->Ok_0.0.width == lookup(vs, n)->Some_0.value.width,
        assign_name(n, rhs, vs)->Ok_0.0.signed == lookup(vs, n)->Some_0.value.signed,
        m != n ==> lookup(assign_name(n, rhs, vs)->Ok_0.1, m) == lookup(vs, m),
{
    let v = assign_name(n, rhs, vs)->Ok_0.0;
    let r = lookup(vs, n)->Some_0;
    lemma_lookup_insert(vs, n, SReg { range: r.range, value: v }, n);
    lemma_lookup_insert(vs, n, SReg { range: r.range, value: v }, m);
}

/// A string literal evaluates to a value that shows its bytes in order,
/// first byte first, between quotes, where no byte is a quote or a
/// backslash.
pub proof fn lemma_string_literal_shown(b: Seq<u8>, vs: Vars)
    requires
        b.len() > 0,
        !string_too_long(b),
        forall|i: int| 0 <= i < b.len() ==> #[trigger] b[i] != 34 && b[i] != 92,
    ensures
        sev(SExpr::StringLiteral(b), None, vs) matches Ok(v) && crate::canonical::canonical_text(v)
            == seq!['"'] + crate::canonical::byte_chars_of(b) + seq!['"'],
{
    crate::canonical::lemma_string_bits_shape(b);
    crate::canonical::lemma_string_text_in_order(b);
    let l = spec_string_literal(b);
    let bits = crate::literal::string_bits(b);
    assert(crate::value::literal_bits(l) =~= bits);
    let v = sev(SExpr::StringLiteral(b), None, vs)->Ok_0;
    assert(v.bits == bits);
    assert(v.style == DisplayStyle::String);
    assert(bits.len() % 8 == 0) by (nonlinear_arith)
        requires
            bits.len() == 8 * b.len(),
    ;
    assert(crate::canonical::shows_as_string(v));
}

/// Whether the numbers `a` and `b` stand in the relation that the
/// comparison or equality operator `op` tests.
pub open spec fn compare_holds(op: BinaryOp, a: int, b: int) -> bool {
    match op {
        BinaryOp::LessThan => a < b,
        BinaryOp::GreaterThan => a > b,
        BinaryOp::LessThanOrEqual => a <= b,
        BinaryOp::GreaterThanOrEqual => a >= b,
        BinaryOp::Equal | BinaryOp::CaseEqual => a == b,
        _ => a != b,
    }
}

/// Extending a known vector keeps it known.
proof fn lemma_extended_known(bits: Seq<LogicBit>, signed: bool, n: nat)
    requires
        !has_unknown(bits),
    ensures
        !has_unknown(crate::value::extended(bits, signed, n)),
{
    let e = crate::value::extended(bits, signed, n);
    assert forall|i: int| 0 <= i < e.len() implies crate::value::is_known(#[trigger] e[i]) by {
        if i < bits.len() {
            assert(crate::value::is_known(bits[i]));
        } else if signed && bits.len() > 0 {
            assert(crate::value::is_known(bits[bits.len() - 1]));
        }
    }
}

/// Two known vectors of one length are equal exactly when they hold the same
/// number.
proof fn lemma_known_equal_iff_value(l: Seq<LogicBit>, r: Seq<LogicBit>, signed: bool)
    requires
        l.len() == r.len(),
        !has_unknown(l),
        !has_unknown(r),
    ensures
        (l == r) == (crate::value::int_value(l, signed) == crate::value::int_value(r, signed)),
{
    crate::value::lemma_read_back(l, signed);
    crate::value::lemma_read_back(r, signed);
}

/// The value of an operand that is a variable or a literal.
pub open spec fn operand_value(e: SExpr, vs: Vars) -> Option<SVal> {
    match e {
        SExpr::Identifier(n) => match lookup(vs, n) {
            Some(r) => Some(r.value),
            None => None,
        },
        SExpr::Literal(l) => Some(materialized(l)),
        _ => None,
    }
}

/// A variable or literal operand has the shape of its value, and under a
/// context it is its value brought to the context's width and signedness.
proof fn lemma_operand_in_context(e: SExpr, c: ExprMeta, vs: Vars)
    requires
        wf_vars(vs),
        operand_value(e, vs) is Some,
    ensures
        operand_value(e, vs)->Some_0.bits.len() == operand_value(e, vs)->Some_0.width,
        smeta(e, vs) == Ok::<ExprMeta, Seq<char>>(meta_of(operand_value(e, vs)->Some_0)),
        sev(e, Some(c), vs) == Ok::<SVal, Seq<char>>(
            resize(operand_value(e, vs)->Some_0, c.width, c.signed),
        ),
        sev(e, None, vs) == Ok::<SVal, Seq<char>>(operand_value(e, vs)->Some_0),
        sev_item(e, vs) == Ok::<SVal, Seq<char>>(operand_value(e, vs)->Some_0),
{
    match e {
        SExpr::Identifier(n) => {
            lemma_find_from(vs, n, 0);
            let i = find_from(vs, n, 0)->Some_0;
            assert(vs[i].1.value.bits.len() == vs[i].1.value.width);
        },
        _ => {},
    }
}

/// Comparing two operands, each a variable or a literal holding a known
/// number, with a relational or equality operator gives the one-bit answer
/// of comparing those numbers, read as signed when both operands are signed
/// and as unsigned otherwise, whatever the two widths: the narrower operand
/// is extended to the wider width, never the wider one cut.
#[verifier::spinoff_prover]
pub proof fn lemma_compare_operands(op: BinaryOp, el: SExpr, er: SExpr, vs: Vars)
    requires
        wf_vars(vs),
        is_relational(op) || is_equality(op),
        operand_value(el, vs) is Some,
        operand_value(er, vs) is Some,
        !has_unknown(operand_value(el, vs)->Some_0.bits),
        !has_unknown(operand_value(er, vs)->Some_0.bits),
    ensures
        sev(SExpr::Binary { op, lhs: Box::new(el), rhs: Box::new(er) }, None, vs) == Ok::<
            SVal,
            Seq<char>,
        >(
            computed(
                1,
                false,
                Base::Binary,
                seq![
                    crate::value::bool_bit(
                        compare_holds(
                            op,
                            crate::value::int_value(
                                operand_value(el, vs)->Some_0.bits,
                                operand_value(el, vs)->Some_0.signed && operand_value(
                                    er,
                                    vs,
                                )->Some_0.signed,
                            ),
                            crate::value::int_value(
                                operand_value(er, vs)->Some_0.bits,
                                operand_value(el, vs)->Some_0.signed && operand_value(
                                    er,
                                    vs,
                                )->Some_0.signed,
                            ),
                        ),
                    ),
                ],
            ),
        ),
{
    let x = operand_value(el, vs)->Some_0;
    let y = operand_value(er, vs)->Some_0;
    let w = if x.width >= y.width {
        x.width
    } else {
        y.width
    };
    let sg = x.signed && y.signed;
    let lctx = ExprMeta { width: w, signed: sg, base: x.base };
    let rctx = ExprMeta { width: w, signed: sg, base: y.base };
    lemma_operand_in_context(el, lctx, vs);
    lemma_operand_in_context(er, rctx, vs);
    let lv = resize(x, w, sg);
    let rv = resize(y, w, sg);
    assert(lv.bits =~= crate::value::extended(x.bits, x.signed && sg, w as nat));
    assert(rv.bits =~= crate::value::extended(y.bits, y.signed && sg, w as nat));
    assert((x.signed && sg) == sg);
    assert((y.signed && sg) == sg);
    crate::value::lemma_extended_value(x.bits, sg, w as nat);
    crate::value::lemma_extended_value(y.bits, sg, w as nat);
    lemma_extended_known(x.bits, sg, w as nat);
    lemma_extended_known(y.bits, sg, w as nat);
    let holds = compare_holds(
        op,
        crate::value::int_value(x.bits, sg),
        crate::value::int_value(y.bits, sg),
    );
    let e = SExpr::Binary { op, lhs: Box::new(el), rhs: Box::new(er) };
    assert(sev(e, None, vs) == sev_binary(e, None, vs));
    if is_equality(op) {
        lemma_known_equal_iff_value(lv.bits, rv.bits, sg);
        assert forall|i: int| 0 <= i < lv.bits.len() implies crate::value::is_known(
            #[trigger] lv.bits[i],
        ) && crate::value::is_known(rv.bits[i]) by {}
        crate::value::lemma_equality_of_known_bits(lv.bits, rv.bits);
        assert(equality(op, lv.bits, rv.bits) == crate::value::bool_bit(holds));
        assert(sev_binary(e, None, vs) == Ok::<SVal, Seq<char>>(
            one_bit(equality(op, lv.bits, rv.bits), None),
        ));
    } else {
        assert(relational(op, lv.bits, rv.bits, sg) == crate::value::bool_bit(holds));
        assert(sev_binary(e, None, vs) == Ok::<SVal, Seq<char>>(
            one_bit(relational(op, lv.bits, rv.bits, sg), None),
        ));
    }
}

/// The number `a op b` for an arithmetic operator: division and remainder
/// round toward zero, the remainder taking the dividend's sign.
pub open spec fn arith_math(op: BinaryOp, a: int, b: int) -> int {
    match op {
        BinaryOp::Add => a + b,
        BinaryOp::Subtract => a - b,
        BinaryOp::Multiply => a * b,
        BinaryOp::Divide => crate::bignum::trunc_div(a, b),
        _ => crate::bignum::trunc_rem(a, b),
    }
}

/// `+ - * / %` on two operands, each a variable or a literal holding a known
/// number, give a value as wide as the wider operand, signed only when both
/// are, whose bits hold the exact result modulo two to that width (the
/// operands read as signed only when both are); division and remainder by
/// zero give all `x`.
#[verifier::spinoff_prover]
pub proof fn lemma_arith_operands(op: BinaryOp, el: SExpr, er: SExpr, vs: Vars)
    requires
        wf_vars(vs),
        op == BinaryOp::Add || op == BinaryOp::Subtract || op == BinaryOp::Multiply || op
            == BinaryOp::Divide || op == BinaryOp::Modulus,
        operand_value(el, vs) is Some,
        operand_value(er, vs) is Some,
        !has_unknown(operand_value(el, vs)->Some_0.bits),
        !has_unknown(operand_value(er, vs)->Some_0.bits),
    ensures
        ({
            let x = operand_value(el, vs)->Some_0;
            let y = operand_value(er, vs)->Some_0;
            let w = if x.width >= y.width {
                x.width
            } else {
                y.width
            };
            let s = x.signed && y.signed;
            let a = crate::value::int_value(x.bits, s);
            let b = crate::value::int_value(y.bits, s);
            sev(SExpr::Binary { op, lhs: Box::new(el), rhs: Box::new(er) }, None, vs) matches Ok(v)
                && v.width == w && v.signed == s && v.bits.len() == w && if (op == BinaryOp::Divide
                || op == BinaryOp::Modulus) && b == 0 {
                v.bits == crate::value::all_x(w as nat)
            } else {
                crate::value::unsigned_value(v.bits) == arith_math(op, a, b) % (vstd::arithmetic::power2::pow2(w as nat) as int)
            }
        }),
{
    let x = operand_value(el, vs)->Some_0;
    let y = operand_value(er, vs)->Some_0;
    let w = if x.width >= y.width {
        x.width
    } else {
        y.width
    };
    let sg = x.signed && y.signed;
    let ctx = ExprMeta { width: w, signed: sg, base: x.base };
    lemma_operand_in_context(el, ctx, vs);
    lemma_operand_in_context(er, ctx, vs);
    let lv = resize(x, w, sg);
    let rv = resize(y, w, sg);
    assert(lv.bits =~= crate::value::extended(x.bits, x.signed && sg, w as nat));
    assert(rv.bits =~= crate::value::extended(y.bits, y.signed && sg, w as nat));
    assert((x.signed && sg) == sg);
    assert((y.signed && sg) == sg);
    crate::value::lemma_extended_value(x.bits, sg, w as nat);
    crate::value::lemma_extended_value(y.bits, sg, w as nat);
    lemma_extended_known(x.bits, sg, w as nat);
    lemma_extended_known(y.bits, sg, w as nat);
    let a = crate::value::int_value(x.bits, sg);
    let b = crate::value::int_value(y.bits, sg);
    let e = SExpr::Binary { op, lhs: Box::new(el), rhs: Box::new(er) };
    assert(binary_meta(op, meta_of(x), meta_of(y)) == ctx);
    assert(sev(e, None, vs) == sev_binary(e, None, vs));
    let bits = arithmetic(op, lv.bits, rv.bits, sg, w as nat);
    assert(sev_binary(e, None, vs) == Ok::<SVal, Seq<char>>(computed(w, sg, x.base, bits)));
    crate::value::lemma_int_bits_wrap(crate::value::arith_result(op, a, b), w as nat);
    assert(arith_math(op, a, b) == crate::value::arith_result(op, a, b));
}

/// `{a, b}` of two operands, each a variable or a sized literal, holds the
/// bits of `a` above those of `b`: its width is the sum of theirs, it is
/// unsigned, and its number is `a`'s shifted up past `b`'s width plus `b`'s.
#[verifier::spinoff_prover]
pub proof fn lemma_concat_operands(el: SExpr, er: SExpr, vs: Vars)
    requires
        wf_vars(vs),
        operand_value(el, vs) is Some,
        operand_value(er, vs) is Some,
        !crate::width::indefinite(el),
        !crate::width::indefinite(er),
        0 < operand_value(el, vs)->Some_0.width + operand_value(er, vs)->Some_0.width
            <= usize::MAX,
    ensures
        ({
            let x = operand_value(el, vs)->Some_0;
            let y = operand_value(er, vs)->Some_0;
            sev(SExpr::Concatenation { items: seq![el, er] }, None, vs) matches Ok(v) && v.width
                == x.width + y.width && !v.signed && v.bits == y.bits + x.bits
                && crate::value::unsigned_value(v.bits) == crate::value::unsigned_value(x.bits)
                * vstd::arithmetic::power2::pow2(y.width as nat) + crate::value::unsigned_value(
                y.bits,
            )
        }),
{
    let x = operand_value(el, vs)->Some_0;
    let y = operand_value(er, vs)->Some_0;
    let c = ExprMeta { width: 1, signed: false, base: Base::Binary };
    lemma_operand_in_context(el, c, vs);
    lemma_operand_in_context(er, c, vs);
    let items = seq![el, er];
    assert(items.drop_last() =~= seq![el]);
    assert(seq![el].drop_last() =~= Seq::<SExpr>::empty());
    assert(sev_items(Seq::<SExpr>::empty(), vs) == Ok::<Seq<SVal>, Seq<char>>(Seq::empty()));
    assert(seq![el].last() == el);
    assert(Seq::<SVal>::empty().push(x) =~= seq![x]);
    assert(sev_items(seq![el], vs) == Ok::<Seq<SVal>, Seq<char>>(seq![x]));
    assert(items.last() == er);
    assert(seq![x].push(y) =~= seq![x, y]);
    assert(sev_items(items, vs) == Ok::<Seq<SVal>, Seq<char>>(seq![x, y]));
    let vals = seq![x, y];
    assert(vals.drop_last() =~= seq![x]);
    assert(seq![x].drop_last() =~= Seq::<SVal>::empty());
    assert(join_bits(Seq::<SVal>::empty()) == Seq::<LogicBit>::empty());
    assert(seq![x].last() == x);
    assert(join_bits(seq![x]) == x.bits + join_bits(Seq::<SVal>::empty()));
    assert(join_bits(seq![x]) =~= x.bits);
    assert(vals.last() == y);
    assert(join_bits(vals) == y.bits + x.bits);
    assert(!(exists|i: int| 0 <= i < items.len() && crate::width::indefinite(#[trigger] items[i])));
    let e = SExpr::Concatenation { items };
    assert(sev(e, None, vs) == sev_concat(e, None, vs));
    crate::literal::lemma_unsigned_join(y.bits, x.bits);
    assert(vstd::arithmetic::power2::pow2(y.bits.len()) * crate::value::unsigned_value(x.bits)
        == crate::value::unsigned_value(x.bits) * vstd::arithmetic::power2::pow2(y.width as nat))
        by (nonlinear_arith)
        requires
            y.bits.len() == y.width,
    ;
}

/// Moving a known vector `n` places up (within its width) multiplies its
/// number by `2^n`, modulo two to its width.
pub proof fn lemma_shifted_left_value(bits: Seq<LogicBit>, n: nat)
    requires
        !has_unknown(bits),
        n <= bits.len(),
    ensures
        crate::value::unsigned_value(crate::value::shifted_left(bits, n as int))
            == (crate::value::unsigned_value(bits) * vstd::arithmetic::power2::pow2(n)) % (
        vstd::arithmetic::power2::pow2(bits.len() as nat) as int),
{
    let z = Seq::new(n, |i: int| LogicBit::Zero);
    let all = z + bits;
    assert(!has_unknown(all)) by {
        assert forall|i: int| 0 <= i < all.len() implies crate::value::is_known(#[trigger] all[i]) by {
            if i >= n {
                assert(all[i] == bits[i - n]);
                assert(crate::value::is_known(bits[i - n]));
            }
        }
    }
    crate::literal::lemma_unsigned_join(z, bits);
    crate::value::lemma_zero_value(z, false);
    assert(crate::literal::low_window(all, bits.len()) =~= crate::value::shifted_left(
        bits,
        n as int,
    ));
    crate::literal::lemma_low_window_value(all, bits.len());
    assert(vstd::arithmetic::power2::pow2(n) * crate::value::unsigned_value(bits)
        == crate::value::unsigned_value(bits) * vstd::arithmetic::power2::pow2(n))
        by (nonlinear_arith);
}

/// Moving a known vector `n` places down (within its width), zeros coming
/// in, divides its number by `2^n`.
pub proof fn lemma_shifted_right_value(bits: Seq<LogicBit>, n: nat)
    requires
        !has_unknown(bits),
        n <= bits.len(),
    ensures
        crate::value::unsigned_value(crate::value::shifted_right(bits, n as int, LogicBit::Zero))
            == crate::value::unsigned_value(bits) / (vstd::arithmetic::power2::pow2(n) as int),
{
    let lo = bits.take(n as int);
    let hi = bits.skip(n as int);
    assert(bits =~= lo + hi);
    crate::literal::lemma_unsigned_join(lo, hi);
    crate::value::lemma_unsigned_bound(lo);
    vstd::arithmetic::power2::lemma_pow2_pos(n);
    assert(lo.len() == n);
    crate::value::lemma_extended_value(hi, false, bits.len());
    assert(crate::value::shifted_right(bits, n as int, LogicBit::Zero) =~= crate::value::extended(
        hi,
        false,
        bits.len(),
    ));
    assert(crate::value::unsigned_value(bits) == crate::value::unsigned_value(hi) * (
    vstd::arithmetic::power2::pow2(n) as int) + crate::value::unsigned_value(lo)) by {
        assert(vstd::arithmetic::power2::pow2(n) * crate::value::unsigned_value(hi)
            == crate::value::unsigned_value(hi) * (vstd::arithmetic::power2::pow2(n) as int))
            by (nonlinear_arith);
    }
    vstd::arithmetic::div_mod::lemma_fundamental_div_mod_converse(
        crate::value::unsigned_value(bits),
        vstd::arithmetic::power2::pow2(n) as int,
        crate::value::unsigned_value(hi),
        crate::value::unsigned_value(lo),
    );
}

/// A shift of a variable or literal `a` holding a known number by an
/// operand holding a known amount `n` keeps `a`'s width `w` and signedness:
/// `<<` and `<<<` multiply by `2^n` modulo `2^w`, `>>` divides by `2^n`, and
/// an amount of `w` or more gives zero.
#[verifier::spinoff_prover]
pub proof fn lemma_shift_operands(op: BinaryOp, el: SExpr, er: SExpr, vs: Vars)
    requires
        wf_vars(vs),
        op == BinaryOp::LogicalShiftLeft || op == BinaryOp::ArithmeticShiftLeft || op
            == BinaryOp::LogicalShiftRight,
        operand_value(el, vs) is Some,
        operand_value(er, vs) is Some,
        !has_unknown(operand_value(el, vs)->Some_0.bits),
        !has_unknown(operand_value(er, vs)->Some_0.bits),
    ensures
        ({
            let x = operand_value(el, vs)->Some_0;
            let n = crate::value::unsigned_value(operand_value(er, vs)->Some_0.bits);
            let a = crate::value::unsigned_value(x.bits);
            let w = x.width;
            sev(SExpr::Binary { op, lhs: Box::new(el), rhs: Box::new(er) }, None, vs) matches Ok(v)
                && v.width == w && v.signed == x.signed && v.bits.len() == w && if n >= w {
                crate::value::unsigned_value(v.bits) == 0
            } else if op == BinaryOp::LogicalShiftRight {
                crate::value::unsigned_value(v.bits) == a / (vstd::arithmetic::power2::pow2(
                    n as nat,
                ) as int)
            } else {
                crate::value::unsigned_value(v.bits) == (a * vstd::arithmetic::power2::pow2(
                    n as nat,
                )) % (vstd::arithmetic::power2::pow2(w as nat) as int)
            }
        }),
{
    let x = operand_value(el, vs)->Some_0;
    let y = operand_value(er, vs)->Some_0;
    let c = meta_of(x);
    lemma_operand_in_context(el, c, vs);
    lemma_operand_in_context(er, c, vs);
    assert(resize(x, c.width, c.signed).bits =~= x.bits);
    let e = SExpr::Binary { op, lhs: Box::new(el), rhs: Box::new(er) };
    assert(sev(e, None, vs) == sev_binary(e, None, vs));
    let amount = crate::value::unsigned_value(y.bits);
    let w = x.width;
    crate::value::lemma_unsigned_bound(y.bits);
    crate::value::lemma_unsigned_bound(x.bits);
    let a = crate::value::unsigned_value(x.bits);
    let m = if amount >= w {
        w as nat
    } else {
        amount as nat
    };
    let bits = crate::value::shift(op, x.bits, y.bits, x.signed, w as nat);
    assert(sev_binary(e, None, vs) == Ok::<SVal, Seq<char>>(computed(w, x.signed, x.base, bits)));
    vstd::arithmetic::power2::lemma_pow2_pos(w as nat);
    if op == BinaryOp::LogicalShiftRight {
        lemma_shifted_right_value(x.bits, m);
        if amount >= w {
            vstd::arithmetic::div_mod::lemma_fundamental_div_mod_converse(
                a,
                vstd::arithmetic::power2::pow2(w as nat) as int,
                0,
                a,
            );
        }
    } else {
        lemma_shifted_left_value(x.bits, m);
        if amount >= w {
            vstd::arithmetic::div_mod::lemma_mod_multiples_basic(
                a,
                vstd::arithmetic::power2::pow2(w as nat) as int,
            );
        }
    }
}

/// Flipping every bit of a known vector gives the number that adds up with
/// its own to `2^w - 1`.
pub proof fn lemma_not_value(bits: Seq<LogicBit>)
    requires
        !has_unknown(bits),
    ensures
        crate::value::unsigned_value(Seq::new(bits.len(), |i: int| crate::value::not_bit(bits[i])))
            + crate::value::unsigned_value(bits) == vstd::arithmetic::power2::pow2(
            bits.len() as nat,
        ) - 1,
    decreases bits.len(),
{
    let f = Seq::new(bits.len(), |i: int| crate::value::not_bit(bits[i]));
    if bits.len() == 0 {
        vstd::arithmetic::power2::lemma2_to64();
    } else {
        let d = bits.drop_last();
        assert(!has_unknown(d)) by {
            assert forall|i: int| 0 <= i < d.len() implies crate::value::is_known(#[trigger] d[i]) by {
                assert(d[i] == bits[i]);
                assert(crate::value::is_known(bits[i]));
            }
        }
        lemma_not_value(d);
        assert(f.drop_last() =~= Seq::new(d.len(), |i: int| crate::value::not_bit(d[i])));
        assert(crate::value::is_known(bits[bits.len() - 1]));
        vstd::arithmetic::power2::lemma_pow2_unfold(bits.len() as nat);
    }
}

/// `-a`, `~a` and `!a` on a variable or literal `a` holding a known number:
/// `-a` and `~a` keep `a`'s width `w` and signedness, `-a` holding minus
/// `a`'s number modulo `2^w` and `~a` holding `2^w - 1` minus its unsigned
/// number; `!a` is the one bit that says whether `a` is zero.
#[verifier::spinoff_prover]
pub proof fn lemma_unary_operand(op: UnaryOp, el: SExpr, vs: Vars)
    requires
        wf_vars(vs),
        op == UnaryOp::Minus || op == UnaryOp::BitwiseNot || op == UnaryOp::LogicalNot,
        operand_value(el, vs) is Some,
        !has_unknown(operand_value(el, vs)->Some_0.bits),
    ensures
        ({
            let x = operand_value(el, vs)->Some_0;
            let w = x.width;
            let u = crate::value::unsigned_value(x.bits);
            sev(SExpr::Unary { op, expr: Box::new(el) }, None, vs) matches Ok(v) && if op
                == UnaryOp::LogicalNot {
                v.width == 1 && !v.signed && v.bits == seq![
                    if u == 0 {
                        LogicBit::One
                    } else {
                        LogicBit::Zero
                    },
                ]
            } else {
                v.width == w && v.signed == x.signed && v.bits.len() == w && if op
                    == UnaryOp::Minus {
                    crate::value::unsigned_value(v.bits) == (-crate::value::int_value(
                        x.bits,
                        x.signed,
                    )) % (vstd::arithmetic::power2::pow2(w as nat) as int)
                } else {
                    crate::value::unsigned_value(v.bits) == vstd::arithmetic::power2::pow2(
                        w as nat,
                    ) - 1 - u
                }
            }
        }),
{
    let x = operand_value(el, vs)->Some_0;
    let c = meta_of(x);
    lemma_operand_in_context(el, c, vs);
    assert(resize(x, c.width, c.signed).bits =~= x.bits);
    let e = SExpr::Unary { op, expr: Box::new(el) };
    assert(sev(e, None, vs) == sev_unary(e, None, vs));
    let w = x.width;
    if op == UnaryOp::LogicalNot {
        crate::value::lemma_zero_value(x.bits, false);
        let l = crate::value::logical(x.bits);
        if crate::value::unsigned_value(x.bits) == 0 {
            assert forall|i: int| 0 <= i < x.bits.len() implies #[trigger] x.bits[i]
                == LogicBit::Zero by {
                assert(x.bits[i] != LogicBit::One);
                assert(crate::value::is_known(x.bits[i]));
            }
            assert(l == LogicBit::Zero);
        } else {
            assert(l == LogicBit::One);
        }
        assert(sev_unary(e, None, vs) == Ok::<SVal, Seq<char>>(
            one_bit(crate::value::logical_not(l), None),
        ));
    } else if op == UnaryOp::Minus {
        crate::value::lemma_int_bits_wrap(-crate::value::int_value(x.bits, x.signed), w as nat);
        assert(sev_unary(e, None, vs) == Ok::<SVal, Seq<char>>(
            computed(w, x.signed, x.base, crate::value::negation(x.bits, x.signed, w as nat)),
        ));
    } else {
        lemma_not_value(x.bits);
        assert(sev_unary(e, None, vs) == Ok::<SVal, Seq<char>>(
            computed(
                w,
                x.signed,
                x.base,
                Seq::new(x.bits.len(), |i: int| crate::value::not_bit(x.bits[i])),
            ),
        ));
    }
}

/// `c ? t : f` on variables or literals holding known numbers is as wide as
/// the wider arm and signed only when both arms are, and holds the number of
/// `t` when `c` is not zero and that of `f` when it is (the arms read as
/// signed only when both are).
#[verifier::spinoff_prover]
pub proof fn lemma_conditional_operands(ec: SExpr, et: SExpr, ef: SExpr, vs: Vars)
    requires
        wf_vars(vs),
        operand_value(ec, vs) is Some,
        operand_value(et, vs) is Some,
        operand_value(ef, vs) is Some,
        !has_unknown(operand_value(ec, vs)->Some_0.bits),
        !has_unknown(operand_value(et, vs)->Some_0.bits),
        !has_unknown(operand_value(ef, vs)->Some_0.bits),
    ensures
        ({
            let c = operand_value(ec, vs)->Some_0;
            let t = operand_value(et, vs)->Some_0;
            let f = operand_value(ef, vs)->Some_0;
            let w = if t.width >= f.width {
                t.width
            } else {
                f.width
            };
            let s = t.signed && f.signed;
            sev(
                SExpr::Conditional {
                    cond: Box::new(ec),
                    then_expr: Box::new(et),
                    else_expr: Box::new(ef),
                },
                None,
                vs,
            ) matches Ok(v) && v.width == w && v.signed == s && v.bits.len() == w
                && crate::value::int_value(v.bits, s) == if crate::value::unsigned_value(c.bits)
                != 0 {
                crate::value::int_value(t.bits, s)
            } else {
                crate::value::int_value(f.bits, s)
            }
        }),
{
    let c = operand_value(ec, vs)->Some_0;
    let t = operand_value(et, vs)->Some_0;
    let f = operand_value(ef, vs)->Some_0;
    let w = if t.width >= f.width {
        t.width
    } else {
        f.width
    };
    let sg = t.signed && f.signed;
    let ctx = ExprMeta { width: w, signed: sg, base: t.base };
    lemma_operand_in_context(ec, ctx, vs);
    lemma_operand_in_context(et, ctx, vs);
    lemma_operand_in_context(ef, ctx, vs);
    assert(resize(t, w, sg).bits =~= crate::value::extended(t.bits, t.signed && sg, w as nat));
    assert(resize(f, w, sg).bits =~= crate::value::extended(f.bits, f.signed && sg, w as nat));
    assert((t.signed && sg) == sg);
    assert((f.signed && sg) == sg);
    crate::value::lemma_extended_value(t.bits, sg, w as nat);
    crate::value::lemma_extended_value(f.bits, sg, w as nat);
    let e = SExpr::Conditional {
        cond: Box::new(ec),
        then_expr: Box::new(et),
        else_expr: Box::new(ef),
    };
    assert(sev(e, None, vs) == sev_conditional(e, None, vs));
    crate::value::lemma_zero_value(c.bits, false);
    let l = crate::value::logical(c.bits);
    if crate::value::unsigned_value(c.bits) == 0 {
        assert forall|i: int| 0 <= i < c.bits.len() implies #[trigger] c.bits[i]
            == LogicBit::Zero by {
            assert(c.bits[i] != LogicBit::One);
            assert(crate::value::is_known(c.bits[i]));
        }
        assert(l == LogicBit::Zero);
        assert(sev_conditional(e, None, vs) == Ok::<SVal, Seq<char>>(
            computed(w, sg, t.base, resize(f, w, sg).bits),
        ));
    } else {
        assert(l == LogicBit::One);
        assert(sev_conditional(e, None, vs) == Ok::<SVal, Seq<char>>(
            computed(w, sg, t.base, resize(t, w, sg).bits),
        ));
    }
}

/// A bit-select `n[i]` of a vector variable declared `[msb:lsb]`, with an
/// index operand (variable or literal) holding the known number `i`, is one
/// unsigned bit: the stored bit `|i - lsb|` places above the bottom when `i`
/// lies between `msb` and `lsb` (so `lsb` selects the lowest bit and `msb`
/// the highest), and `x` when it lies outside.
#[verifier::spinoff_prover]
pub proof fn lemma_bit_select_variable(n: Seq<char>, ei: SExpr, vs: Vars)
    requires
        wf_vars(vs),
        lookup(vs, n) matches Some(r) && r.range is Some,
        operand_value(ei, vs) is Some,
        !has_unknown(operand_value(ei, vs)->Some_0.bits),
    ensures
        ({
            let r = lookup(vs, n)->Some_0;
            let (msb, lsb) = r.range->Some_0;
            let iv = operand_value(ei, vs)->Some_0;
            let i = crate::value::int_value(iv.bits, iv.signed);
            sev(
                SExpr::Select { name: n, kind: SSelect::Bit { index: Box::new(ei) }, inner: None },
                None,
                vs,
            ) matches Ok(v) && v.width == 1 && !v.signed && v.bits.len() == 1 && if (lsb <= i
                <= msb || msb <= i <= lsb) {
                abs(i - lsb) < r.value.bits.len() && v.bits[0] == r.value.bits[abs(i - lsb) as int]
            } else {
                v.bits[0] == LogicBit::X
            }
        }),
{
    let r = lookup(vs, n)->Some_0;
    let (msb, lsb) = r.range->Some_0;
    let iv = operand_value(ei, vs)->Some_0;
    lemma_find_from(vs, n, 0);
    let k = find_from(vs, n, 0)->Some_0;
    assert(vs[k].1 == r);
    assert(fits_range(r.value.bits, msb, lsb));
    let c = meta_of(iv);
    lemma_operand_in_context(ei, c, vs);
    let kind = SSelect::Bit { index: Box::new(ei) };
    let e = SExpr::Select { name: n, kind, inner: None };
    assert(sev(e, None, vs) == sev_select(e, None, vs));
    assert(select_bits(kind, r.value, msb, lsb, vs) == Ok::<Seq<LogicBit>, Seq<char>>(
        seq![bit_at(r.value.bits, msb, lsb, crate::value::int_value(iv.bits, iv.signed))],
    ));
}

/// The boolean function a bitwise operator computes on two known bits.
pub open spec fn bitwise_holds(op: BinaryOp, a: bool, b: bool) -> bool {
    match op {
        BinaryOp::BitwiseAnd => a && b,
        BinaryOp::BitwiseOr => a || b,
        BinaryOp::BitwiseXor => a != b,
        _ => a == b,
    }
}

/// `& | ^ ~^` on two operands, each a variable or a literal holding known
/// bits, give a value as wide as the wider operand, signed only when both
/// are, each of whose bits is the boolean function of the operator on the
/// operands' bits at that place (the narrower operand widened, with copies
/// of its top bit when both are signed and zeros otherwise).
#[verifier::spinoff_prover]
pub proof fn lemma_bitwise_operands(op: BinaryOp, el: SExpr, er: SExpr, vs: Vars)
    requires
        wf_vars(vs),
        op == BinaryOp::BitwiseAnd || op == BinaryOp::BitwiseOr || op == BinaryOp::BitwiseXor
            || op == BinaryOp::BitwiseXnor,
        operand_value(el, vs) is Some,
        operand_value(er, vs) is Some,
        !has_unknown(operand_value(el, vs)->Some_0.bits),
        !has_unknown(operand_value(er, vs)->Some_0.bits),
    ensures
        ({
            let x = operand_value(el, vs)->Some_0;
            let y = operand_value(er, vs)->Some_0;
            let w = if x.width >= y.width {
                x.width
            } else {
                y.width
            };
            let s = x.signed && y.signed;
            let xb = crate::value::extended(x.bits, s, w as nat);
            let yb = crate::value::extended(y.bits, s, w as nat);
            sev(SExpr::Binary { op, lhs: Box::new(el), rhs: Box::new(er) }, None, vs) matches Ok(v)
                && v.width == w && v.signed == s && v.bits.len() == w && forall|i: int|
                0 <= i < w ==> #[trigger] v.bits[i] == crate::value::bool_bit(
                    bitwise_holds(op, xb[i] == LogicBit::One, yb[i] == LogicBit::One),
                )
        }),
{
    let x = operand_value(el, vs)->Some_0;
    let y = operand_value(er, vs)->Some_0;
    let w = if x.width >= y.width {
        x.width
    } else {
        y.width
    };
    let sg = x.signed && y.signed;
    let ctx = ExprMeta { width: w, signed: sg, base: x.base };
    lemma_operand_in_context(el, ctx, vs);
    lemma_operand_in_context(er, ctx, vs);
    let lv = resize(x, w, sg);
    let rv = resize(y, w, sg);
    assert(lv.bits =~= crate::value::extended(x.bits, sg, w as nat));
    assert(rv.bits =~= crate::value::extended(y.bits, sg, w as nat));
    lemma_extended_known(x.bits, sg, w as nat);
    lemma_extended_known(y.bits, sg, w as nat);
    let e = SExpr::Binary { op, lhs: Box::new(el), rhs: Box::new(er) };
    assert(binary_meta(op, meta_of(x), meta_of(y)) == ctx);
    assert(sev(e, None, vs) == sev_binary(e, None, vs));
    let bits = Seq::new(
        min_len(lv.bits, rv.bits),
        |i: int| bitwise_table(op, lv.bits[i], rv.bits[i]),
    );
    assert(sev_binary(e, None, vs) == Ok::<SVal, Seq<char>>(computed(w, sg, x.base, bits)));
    assert forall|i: int| 0 <= i < w implies #[trigger] bits[i] == crate::value::bool_bit(
        bitwise_holds(op, lv.bits[i] == LogicBit::One, rv.bits[i] == LogicBit::One),
    ) by {
        assert(crate::value::is_known(lv.bits[i]) && crate::value::is_known(rv.bits[i]));
    }
}

/// `a ** b` on a variable or literal `a` and an operand `b`, both holding
/// known numbers with `b` not negative, keeps `a`'s width `w` and
/// signedness and holds `a`'s number raised to `b`'s, modulo `2^w`.
#[verifier::spinoff_prover]
pub proof fn lemma_power_operands(el: SExpr, er: SExpr, vs: Vars)
    requires
        wf_vars(vs),
        operand_value(el, vs) is Some,
        operand_value(er, vs) is Some,
        !has_unknown(operand_value(el, vs)->Some_0.bits),
        !has_unknown(operand_value(er, vs)->Some_0.bits),
        crate::value::int_value(
            operand_value(er, vs)->Some_0.bits,
            operand_value(er, vs)->Some_0.signed,
        ) >= 0,
    ensures
        ({
            let x = operand_value(el, vs)->Some_0;
            let y = operand_value(er, vs)->Some_0;
            let a = crate::value::int_value(x.bits, x.signed);
            let n = crate::value::int_value(y.bits, y.signed);
            sev(
                SExpr::Binary { op: BinaryOp::Power, lhs: Box::new(el), rhs: Box::new(er) },
                None,
                vs,
            ) matches Ok(v) && v.width == x.width && v.signed == x.signed && v.bits.len() == x.width
                && crate::value::unsigned_value(v.bits) == vstd::arithmetic::power::pow(a, n as nat)
                % (vstd::arithmetic::power2::pow2(x.width as nat) as int)
        }),
{
    let x = operand_value(el, vs)->Some_0;
    let y = operand_value(er, vs)->Some_0;
    let w = x.width;
    let c = meta_of(x);
    lemma_operand_in_context(el, c, vs);
    lemma_operand_in_context(er, c, vs);
    assert(resize(x, c.width, c.signed).bits =~= x.bits);
    let e = SExpr::Binary { op: BinaryOp::Power, lhs: Box::new(el), rhs: Box::new(er) };
    assert(binary_meta(BinaryOp::Power, meta_of(x), meta_of(y)) == c);
    assert(sev(e, None, vs) == sev_binary(e, None, vs));
    let bits = power(x.bits, x.signed, y.bits, y.signed, w as nat);
    assert(sev_binary(e, None, vs) == Ok::<SVal, Seq<char>>(computed(w, x.signed, x.base, bits)));
    let a = crate::value::int_value(x.bits, x.signed);
    let n = crate::value::int_value(y.bits, y.signed);
    let m = vstd::arithmetic::power2::pow2(w as nat) as int;
    vstd::arithmetic::power2::lemma_pow2_pos(w as nat);
    if n == 0 {
        vstd::arithmetic::power::lemma_pow0(a);
        crate::value::lemma_int_bits_wrap(1, w as nat);
    } else {
        vstd::arithmetic::power::lemma_pow_mod_noop(a, n as nat, m);
        let p = vstd::arithmetic::power::pow(a % m, n as nat) % m;
        crate::value::lemma_int_bits_wrap(p, w as nat);
        vstd::arithmetic::div_mod::lemma_mod_twice(vstd::arithmetic::power::pow(a % m, n as nat), m);
    }
}

/// Bringing a known value to `w` bits keeps its number modulo `2^w`: the
/// number read as signed only when the value and the target both are.
pub proof fn lemma_resize_value(x: SVal, w: usize, s: bool)
    requires
        x.bits.len() == x.width,
        !has_unknown(x.bits),
    ensures
        resize(x, w, s).bits.len() == w,
        crate::value::unsigned_value(resize(x, w, s).bits) == crate::value::int_value(
            x.bits,
            x.signed && s,
        ) % (vstd::arithmetic::power2::pow2(w as nat) as int),
{
    let sg = x.signed && s;
    let n = x.bits.len();
    let m = vstd::arithmetic::power2::pow2(w as nat) as int;
    let r = resize(x, w, s).bits;
    let v = crate::value::int_value(x.bits, sg);
    let u = crate::value::unsigned_value(x.bits);
    vstd::arithmetic::power2::lemma_pow2_pos(w as nat);
    crate::value::lemma_unsigned_bound(x.bits);
    if w >= n {
        assert(r =~= crate::value::extended(x.bits, sg, w as nat));
        crate::value::lemma_extended_value(x.bits, sg, w as nat);
        crate::value::lemma_unsigned_bound(r);
        let ur = crate::value::unsigned_value(r);
        if sg && r.len() > 0 && r.last() == LogicBit::One {
            vstd::arithmetic::div_mod::lemma_fundamental_div_mod_converse(v, m, -1, ur);
        } else {
            vstd::arithmetic::div_mod::lemma_fundamental_div_mod_converse(v, m, 0, ur);
        }
    } else {
        assert(r =~= crate::literal::low_window(x.bits, w as nat));
        crate::literal::lemma_low_window_value(x.bits, w as nat);
        let q = u / m;
        let rem = u % m;
        vstd::arithmetic::div_mod::lemma_fundamental_div_mod(u, m);
        vstd::arithmetic::div_mod::lemma_mod_bound(u, m);
        vstd::arithmetic::power2::lemma_pow2_adds(w as nat, (n - w) as nat);
        let big = vstd::arithmetic::power2::pow2(n as nat) as int;
        let hi = vstd::arithmetic::power2::pow2((n - w) as nat) as int;
        assert(big == m * hi);
        if sg && n > 0 && x.bits.last() == LogicBit::One {
            assert(v == u - big);
            assert(v == (q - hi) * m + rem) by (nonlinear_arith)
                requires
                    v == u - big,
                    big == m * hi,
                    u == m * q + rem,
            ;
            vstd::arithmetic::div_mod::lemma_fundamental_div_mod_converse(v, m, q - hi, rem);
        } else {
            assert(v == u);
            assert(v == q * m + rem) by (nonlinear_arith)
                requires
                    v == u,
                    u == m * q + rem,
            ;
            vstd::arithmetic::div_mod::lemma_fundamental_div_mod_converse(v, m, q, rem);
        }
    }
}

/// A one-name declaration with an initializer that is a variable or literal
/// holding a known number stores that number brought to the declared width
/// `w`: modulo `2^w`, read as signed only when the initializer and the
/// declaration both are.
#[verifier::spinoff_prover]
pub proof fn lemma_declared_initial_value(
    kind: crate::ast::DeclKind,
    signed: bool,
    range: Option<(SExpr, SExpr)>,
    d: crate::ast::SDeclName,
    vs: Vars,
)
    requires
        wf_vars(vs),
        spec_stmt(vs, crate::ast::SStmt::Decl { kind, signed, range, names: seq![d] }) is Ok,
        d.init matches Some(e) && operand_value(e, vs) is Some && !has_unknown(
            operand_value(e, vs)->Some_0.bits,
        ),
    ensures
        ({
            let x = operand_value(d.init->Some_0, vs)->Some_0;
            let nv = spec_stmt(
                vs,
                crate::ast::SStmt::Decl { kind, signed, range, names: seq![d] },
            )->Ok_0.3;
            lookup(nv, d.name) matches Some(r) && r.value.bits.len() == r.value.width
                && crate::value::unsigned_value(r.value.bits) == crate::value::int_value(
                x.bits,
                x.signed && r.value.signed,
            ) % (vstd::arithmetic::power2::pow2(r.value.width as nat) as int)
        }),
{
    let e = d.init->Some_0;
    let x = operand_value(e, vs)->Some_0;
    let sh = decl_shape(kind, signed, range, vs)->Ok_0;
    let names = seq![d];
    assert(names.drop_last() =~= Seq::<crate::ast::SDeclName>::empty());
    assert(names.last() == d);
    assert(decl_names(Seq::<crate::ast::SDeclName>::empty(), sh, vs) == Ok::<Vars, Seq<char>>(vs));
    let ctx = ExprMeta { width: sh.width, signed: sh.signed, base: sh.base };
    lemma_operand_in_context(e, ctx, vs);
    let v = resize(x, sh.width, sh.signed);
    lemma_resize_value(x, sh.width, sh.signed);
    assert(top_value(e, Some(ctx), vs) == Ok::<SVal, Seq<char>>(v));
    assert(resize(v, sh.width, sh.signed).bits =~= v.bits);
    let iv = init_value(d.init, sh, vs)->Ok_0;
    assert(iv.bits == v.bits);
    lemma_lookup_insert(vs, d.name, SReg { range: sh.range, value: iv }, d.name);
}

/// Each name a declaration lists is stored with the declaration's shape.
proof fn lemma_decl_names_shape(names: Seq<crate::ast::SDeclName>, sh: DeclShape, vs: Vars, k: int)
    requires
        decl_names(names, sh, vs) is Ok,
        0 <= k < names.len(),
    ensures
        lookup(decl_names(names, sh, vs)->Ok_0, names[k].name) matches Some(r) && r.range
            == sh.range && r.value.width == sh.width && r.value.signed == sh.signed,
    decreases names.len(),
{
    let d = names.last();
    let staged = decl_names(names.drop_last(), sh, vs)->Ok_0;
    let v = init_value(d.init, sh, staged)->Ok_0;
    let reg = SReg { range: sh.range, value: v };
    lemma_lookup_insert(staged, d.name, reg, names[k].name);
    if k < names.len() - 1 && names[k].name != d.name {
        assert(names.drop_last()[k] == names[k]);
        lemma_decl_names_shape(names.drop_last(), sh, vs, k);
    }
}

/// A declaration stores every name it lists with the declared shape: a
/// `reg` keeps the declared signedness and is one bit wide without a range,
/// or `|msb - lsb| + 1` bits wide with the range `(msb, lsb)` that its bounds
/// evaluate to; an `integer` is a signed 32-bit variable.
pub proof fn lemma_declaration_shape(
    kind: crate::ast::DeclKind,
    signed: bool,
    range: Option<(SExpr, SExpr)>,
    names: Seq<crate::ast::SDeclName>,
    vs: Vars,
    k: int,
)
    requires
        spec_stmt(vs, crate::ast::SStmt::Decl { kind, signed, range, names }) is Ok,
        0 <= k < names.len(),
    ensures
        lookup(
            spec_stmt(vs, crate::ast::SStmt::Decl { kind, signed, range, names })->Ok_0.3,
            names[k].name,
        ) matches Some(r) && (kind == crate::ast::DeclKind::Integer ==> r.value.signed
            && r.value.width == 32) && (kind == crate::ast::DeclKind::Reg ==> r.value.signed
            == signed && match range {
            None => r.value.width == 1 && r.range is None,
            Some((m, l)) => r.range == Some(
                (range_end(m, "msb"@, vs)->Ok_0, range_end(l, "lsb"@, vs)->Ok_0),
            ) && r.value.width == abs(range_end(m, "msb"@, vs)->Ok_0 - range_end(
                l,
                "lsb"@,
                vs,
            )->Ok_0) + 1,
        }),
{
    let sh = decl_shape(kind, signed, range, vs)->Ok_0;
    lemma_decl_names_shape(names, sh, vs, k);
}

proof fn lemma_insert_wf(vs: Vars, name: Seq<char>, r: SReg)
    requires
        wf_vars(vs),
        r.value.bits.len() == r.value.width,
        match r.range {
            Some((m, l)) => fits_range(r.value.bits, m, l),
            None => true,
        },
    ensures
        wf_vars(insert_var(vs, name, r)),
{
    lemma_find_from(vs, name, 0);
    let nv = insert_var(vs, name, r);
    match find_from(vs, name, 0) {
        Some(i) => {
            assert forall|a: int, b: int| 0 <= a < b < nv.len() implies (#[trigger] nv[a]).0 != (
            #[trigger] nv[b]).0 by {
                assert(vs[a].0 != vs[b].0);
            }
        },
        None => {
            assert forall|a: int, b: int| 0 <= a < b < nv.len() implies (#[trigger] nv[a]).0 != (
            #[trigger] nv[b]).0 by {
                if b < vs.len() {
                    assert(vs[a].0 != vs[b].0);
                } else {
                    assert(vs[a].0 != name);
                }
            }
        },
    }
}

fn copy_bigint(b: &BigInt) -> (r: BigInt)
    ensures
        bigint_value(r) == bigint_value(*b),
{
    bigint_add(b, &bigint_small(0))
}

fn copy_range(r: &Option<RegRange>) -> (c: Option<RegRange>)
    ensures
        match *r {
            Some(x) => c matches Some(y) && bigint_value(y.msb) == bigint_value(x.msb) && bigint_value(y.lsb) == bigint_value(x.lsb),
            None => c is None,
        },
{
    match r {
        Some(x) => Some(RegRange { msb: copy_bigint(&x.msb), lsb: copy_bigint(&x.lsb) }),
        None => None,
    }
}

impl Session {
    fn copy(&self) -> (r: Session)
        ensures
            r@ == self@,
    {
        let mut vars: Vec<(String, Reg)> = Vec::new();
        let mut i: usize = 0;
        while i < self.vars.len()
            invariant
                i <= self.vars@.len(),
                vars_view(vars@) =~= vars_view(self.vars@.take(i as int)),
            decreases self.vars@.len() - i,
        {
            let (n, g) = (&self.vars[i].0, &self.vars[i].1);
            let c = Reg { range: copy_range(&g.range), value: copy_value(&g.value) };
            let on = owned(n.as_str());
            assert(c@ == self.vars@[i as int].1@);
            assert(on@ == self.vars@[i as int].0@);
            let ghost before = vars@;
            vars.push((on, c));
            assert(vars_view(vars@) =~= vars_view(before).push((self.vars@[i as int].0@, self.vars@[i as int].1@)));
            assert(vars_view(self.vars@.take(i + 1)) =~= vars_view(self.vars@.take(i as int)).push((self.vars@[i as int].0@, self.vars@[i as int].1@)));
            i = i + 1;
        }
        assert(self.vars@.take(i as int) =~= self.vars@);
        Session { vars }
    }

    /// Binds `name` to `reg`, in place of an earlier binding.
    fn set_var(&mut self, name: &str, reg: Reg)
        requires
            old(self).wf(),
            reg.value.bits@.len() == reg.value.width,
            match reg@.range {
                Some((m, l)) => fits_range(reg@.value.bits, m, l),
                None => true,
            },
        ensures
            final(self)@ == insert_var(old(self)@, name@, reg@),
            final(self).wf(),
    {
        proof {
            lemma_insert_wf(self@, name@, reg@);
        }
        let ghost g = reg@;
        match self.position(name) {
            Some(i) => {
                self.vars.set(i, (owned(name), reg));
                assert(self@ =~= insert_var(old(self)@, name@, g));
            },
            None => {
                self.vars.push((owned(name), reg));
                assert(self@ =~= insert_var(old(self)@, name@, g));
            },
        }
    }
}

fn top_eval(e: &Expr, ctx: Option<ExprMeta>, s: &Session) -> (r: Result<IntegerValue, String>)
    requires
        s.wf(),
    ensures
        res_val(r, top_value(view_expr(*e), ctx, s@)),
{
    match infer_expr_meta(e, s) {
        Err(m) => Err(prefixed("Semantic error: ", m.as_str())),
        Ok(_) => eval_expr(e, ctx, s),
    }
}

fn range_end_of(e: &Expr, role: &str, s: &Session) -> (r: Result<BigInt, String>)
    requires
        s.wf(),
    ensures
        match range_end(view_expr(*e), role@, s@) {
            Ok(n) => r matches Ok(b) && bigint_value(b) == n,
            Err(m) => r matches Err(x) && x@ == m,
        },
{
    let v = match top_eval(e, None, s) {
        Ok(v) => v,
        Err(m) => return Err(m),
    };
    if v.has_unknown_bits() {
        return Err(err_with("Semantic error: reg range ", role, " contains unknown bits"));
    }
    Ok(v.as_bigint(v.signed))
}

/// The exec form of a declaration's storage shape.
struct Shape {
    width: usize,
    signed: bool,
    base: Base,
    locked: bool,
    range: Option<RegRange>,
}

spec fn shape_view(sh: Shape) -> DeclShape {
    DeclShape {
        width: sh.width,
        signed: sh.signed,
        base: sh.base,
        locked: sh.locked,
        range: match sh.range {
            Some(r) => Some((bigint_value(r.msb), bigint_value(r.lsb))),
            None => None,
        },
    }
}

fn shape_of(kind: crate::ast::DeclKind, signed: bool, range: &Option<(Expr, Expr)>, s: &Session) -> (r:
    Result<Shape, String>)
    requires
        s.wf(),
    ensures
        match decl_shape(kind, signed, crate::ast::view_opt_pair(*range), s@) {
            Ok(sh) => r matches Ok(x) && shape_view(x) == sh && match sh.range {
                Some((m, l)) => fits_range(all_x(sh.width as nat), m, l),
                None => sh.width == 1,
            },
            Err(m) => r matches Err(x) && x@ == m,
        },
{
    match kind {
        crate::ast::DeclKind::Integer => Ok(Shape {
            width: 32,
            signed: true,
            base: Base::Decimal,
            locked: true,
            range: Some(RegRange { msb: bigint_small(31), lsb: bigint_small(0) }),
        }),
        crate::ast::DeclKind::Real => Err(owned("real variables are evaluated outside the integer evaluator")),
        crate::ast::DeclKind::Reg => match range {
            None => Ok(Shape { width: 1, signed, base: Base::Binary, locked: false, range: None }),
            Some((m, l)) => {
                let mv = match range_end_of(m, "msb", s) {
                    Ok(b) => b,
                    Err(e) => return Err(e),
                };
                let lv = match range_end_of(l, "lsb", s) {
                    Ok(b) => b,
                    Err(e) => return Err(e),
                };
                let w = match part_width_of(&mv, &lv) {
                    Ok(w) => w,
                    Err(_) => return Err(owned("Semantic error: reg range width too large")),
                };
                Ok(Shape { width: w, signed, base: Base::Binary, locked: false, range: Some(RegRange { msb: mv, lsb: lv }) })
            },
        },
    }
}

fn init_of(init: &Option<Expr>, sh: &Shape, s: &Session) -> (r: Result<IntegerValue, String>)
    requires
        s.wf(),
    ensures
        res_val(r, init_value(crate::ast::view_opt_expr(*init), shape_view(*sh), s@)),
        r matches Ok(v) ==> v.bits@.len() == sh.width && v.width == sh.width,
{
    match init {
        None => {
            let bits = crate::value::all_x_bits(sh.width);
            Ok(IntegerValue {
                width: sh.width,
                signed: sh.signed,
                base: sh.base,
                base_locked: sh.locked,
                display_style: DisplayStyle::Base,
                bits,
                unsized_literal: false,
            })
        },
        Some(x) => {
            let v = match top_eval(x, Some(ExprMeta { width: sh.width, signed: sh.signed, base: sh.base }), s) {
                Ok(v) => v,
                Err(m) => return Err(m),
            };
            let sized = resize_value(&v, sh.width, sh.signed);
            let base = if sh.locked || !v.base_locked {
                sh.base
            } else {
                v.base
            };
            Ok(IntegerValue {
                width: sh.width,
                signed: sh.signed,
                base,
                base_locked: sh.locked || v.base_locked,
                display_style: DisplayStyle::Base,
                bits: sized.bits,
                unsized_literal: false,
            })
        },
    }
}

proof fn lemma_decl_names_err(names: Seq<crate::ast::SDeclName>, k: int, sh: DeclShape, vs: Vars)
    requires
        0 <= k <= names.len(),
        decl_names(names.take(k), sh, vs) is Err,
    ensures
        decl_names(names, sh, vs) == decl_names(names.take(k), sh, vs),
    decreases names.len() - k,
{
    if k < names.len() {
        assert(names.take(k + 1).drop_last() =~= names.take(k));
        lemma_decl_names_err(names, k + 1, sh, vs);
    } else {
        assert(names.take(k) =~= names);
    }
}

impl Session {
    fn declare(&mut self, kind: crate::ast::DeclKind, signed: bool, range: &Option<(Expr, Expr)>, names: &Vec<crate::ast::DeclName>) -> (r: Result<(), String>)
        requires
            old(self).wf(),
        ensures
            final(self).wf(),
            match decl_shape(kind, signed, crate::ast::view_opt_pair(*range), old(self)@) {
                Err(m) => r matches Err(x) && x@ == m && final(self)@ == old(self)@,
                Ok(sh) => match decl_names(crate::ast::view_decl_names(names@), sh, old(self)@) {
                    Err(m) => r matches Err(x) && x@ == m && final(self)@ == old(self)@,
                    Ok(nv) => r is Ok && final(self)@ == nv,
                },
            },
    {
        let sh = match shape_of(kind, signed, range, self) {
            Ok(sh) => sh,
            Err(m) => return Err(m),
        };
        let ghost vn = crate::ast::view_decl_names(names@);
        let mut staged = self.copy();
        let mut k: usize = 0;
        assert(vn.take(0) =~= Seq::<crate::ast::SDeclName>::empty());
        while k < names.len()
            invariant
                k <= names@.len(),
                vn == crate::ast::view_decl_names(names@),
                vn.len() == names@.len(),
                staged.wf(),
                decl_names(vn.take(k as int), shape_view(sh), self@) == Ok::<Vars, Seq<char>>(staged@),
                self@ == old(self)@,
                decl_shape(kind, signed, crate::ast::view_opt_pair(*range), old(self)@) == Ok::<DeclShape, Seq<char>>(shape_view(sh)),
                match shape_view(sh).range {
                    Some((m, l)) => fits_range(all_x(sh.width as nat), m, l),
                    None => sh.width == 1,
                },
                self.wf(),
            decreases names@.len() - k,
        {
            let d = &names[k];
            assert(vn[k as int] == crate::ast::view_decl_name(names@[k as int]));
            assert(vn.take(k + 1).drop_last() =~= vn.take(k as int));
            assert(vn.take(k + 1).last() == vn[k as int]);
            if d.dim.is_some() {
                proof {
                    lemma_decl_names_err(vn, k + 1, shape_view(sh), self@);
                }
                return Err(prefixed_suffixed("array variable `", d.name.as_str(), "` is not supported by the integer evaluator"));
            }
            let v = match init_of(&d.init, &sh, &staged) {
                Ok(v) => v,
                Err(m) => {
                    proof {
                        lemma_decl_names_err(vn, k + 1, shape_view(sh), self@);
                    }
                    return Err(m);
                },
            };
            let reg = Reg { range: copy_range(&sh.range), value: v };
            staged.set_var(d.name.as_str(), reg);
            k = k + 1;
        }
        assert(vn.take(k as int) =~= vn);
        *self = staged;
        Ok(())
    }

    fn assign(&mut self, name: &str, rhs: &Expr) -> (r: Result<String, String>)
        requires
            old(self).wf(),
        ensures
            final(self).wf(),
            match assign_name(name@, view_expr(*rhs), old(self)@) {
                Err(m) => r matches Err(x) && x@ == m && final(self)@ == old(self)@,
                Ok((v, nv)) => r matches Ok(x) && x@ == crate::canonical::canonical_text(v) && final(self)@ == nv,
            },
    {
        let i = match self.position(name) {
            Some(i) => i,
            None => {
                let m = prefixed("undeclared identifier: ", name);
                return Err(prefixed("Semantic error: ", m.as_str()));
            },
        };
        proof {
            lemma_find_from(self@, name@, 0);
        }
        let (nv, range) = {
            let g = &self.vars[i].1;
            assert(self@[i as int].1 == g@);
            let old = &g.value;
            let v = match top_eval(rhs, Some(ExprMeta { width: old.width, signed: old.signed, base: old.base }), self) {
                Ok(v) => v,
                Err(m) => return Err(m),
            };
            let sized = resize_value(&v, old.width, old.signed);
            let base = if !old.base_locked && v.base_locked {
                v.base
            } else {
                old.base
            };
            (IntegerValue {
                width: old.width,
                signed: old.signed,
                base,
                base_locked: old.base_locked || v.base_locked,
                display_style: DisplayStyle::Base,
                bits: sized.bits,
                unsized_literal: false,
            }, copy_range(&g.range))
        };
        let shown = crate::canonical::canonical(&nv);
        proof {
            let g = self@[i as int].1;
            assert(g.value.width == nv.bits@.len());
            match g.range {
                Some((m, l)) => {
                    assert(fits_range(g.value.bits, m, l));
                },
                None => {},
            }
        }
        self.set_var(name, Reg { range, value: nv });
        Ok(shown)
    }
}

proof fn lemma_run_stops(vs: Vars, stmts: Seq<crate::ast::SStmt>, k: int)
    requires
        0 <= k <= stmts.len(),
        run_stmts(vs, stmts.take(k)) is Err || (run_stmts(vs, stmts.take(k)) matches Ok(st) && st.exit),
    ensures
        run_stmts(vs, stmts) == run_stmts(vs, stmts.take(k)),
    decreases stmts.len() - k,
{
    if k < stmts.len() {
        assert(stmts.take(k + 1).drop_last() =~= stmts.take(k));
        lemma_run_stops(vs, stmts, k + 1);
    } else {
        assert(stmts.take(k) =~= stmts);
    }
}

pub open spec fn stmt_result(
    r: Result<(Vec<u8>, String, bool), String>,
    s: Result<(Seq<u8>, Seq<char>, bool, Vars), Seq<char>>,
    before: Vars,
    after: Vars,
) -> bool {
    match s {
        Ok((t, o, x, nv)) => r matches Ok((a, b, c)) && a@ == t && b@ == o && c == x && after == nv,
        Err(m) => r matches Err(e) && e@ == m && after == before,
    }
}

impl Session {
    /// The unformatted text of a display task's arguments.
    fn display_args(&self, args: &Vec<SystemArg>, base: Base) -> (r: Result<String, String>)
        requires
            self.wf(),
        ensures
            match display_items(view_args(args@), base, self@) {
                Ok(items) => r matches Ok(x) && x@ == join_display(items),
                Err(m) => r matches Err(x) && x@ == m,
            },
    {
        let ghost va = view_args(args@);
        proof {
            lemma_view_args(args@);
        }
        let mut out = String::new();
        let mut prev_value = false;
        let mut i: usize = 0;
        let ghost items: Seq<(bool, Seq<char>)> = Seq::empty();
        assert(va.take(0) =~= Seq::<SArg>::empty());
        while i < args.len()
            invariant
                i <= args@.len() == va.len(),
                self.wf(),
                va == view_args(args@),
                forall|j: int|
                    0 <= j < args@.len() ==> #[trigger] va[j] == match args@[j] {
                        SystemArg::Expr(e) => SArg::Expr(view_expr(e)),
                        SystemArg::Null => SArg::Null,
                    },
                display_items(va.take(i as int), base, self@) == Ok::<
                    Seq<(bool, Seq<char>)>,
                    Seq<char>,
                >(items),
                out@ == join_display(items),
                prev_value == (items.len() > 0 && items.last().0),
                items.len() == i,
            decreases args@.len() - i,
        {
            let ghost before = items;
            assert(va.take(i + 1).drop_last() =~= va.take(i as int));
            assert(va.take(i + 1).last() == va[i as int]);
            match &args[i] {
                SystemArg::Null => {
                    push_char(&mut out, ' ');
                    prev_value = false;
                    proof {
                        items = items.push((false, seq![' ']));
                    }
                },
                SystemArg::Expr(e) => match top_eval(e, None, self) {
                    Err(m) => {
                        proof {
                            lemma_display_error_stays(va, base, self@, i + 1, va.len() as int);
                            assert(va.take(va.len() as int) =~= va);
                        }
                        return Err(m);
                    },
                    Ok(v) => {
                        if prev_value {
                            push_char(&mut out, ' ');
                        }
                        let t = crate::canonical::display_text_of(&v, base);
                        append_str(&mut out, t.as_str());
                        prev_value = true;
                        proof {
                            items = items.push((true, crate::canonical::display_text(v@, base)));
                        }
                    },
                },
            }
            assert(items.drop_last() =~= before);
            assert(out@ =~= join_display(items));
            i = i + 1;
        }
        assert(va.take(i as int) =~= va);
        Ok(out)
    }

    fn run_task(&self, t: crate::system::SystemTask, name: &str, args: &Vec<SystemArg>) -> (r: Result<(Vec<u8>, String, bool), String>)
        requires
            self.wf(),
        ensures
            stmt_result(r, task_effect(t, name@, view_args(args@), self@), self@, self@),
    {
        match t {
            crate::system::SystemTask::Finish | crate::system::SystemTask::Stop => {
                let e = String::new();
                assert(e@ == Seq::<char>::empty());
                let v: Vec<u8> = Vec::new();
                assert(v@ =~= Seq::<u8>::empty());
                Ok((v, e, true))
            },
            _ => {
                let text = match self.display_args(args, t.default_base()) {
                    Err(m) => {
                        return Err(m);
                    },
                    Ok(x) => x,
                };
                let cs = crate::text::chars_of(text.as_str());
                let mut v: Vec<u8> = Vec::new();
                let mut j: usize = 0;
                while j < cs.len()
                    invariant
                        j <= cs@.len(),
                        v@ == ascii_bytes(cs@).take(j as int),
                    decreases cs@.len() - j,
                {
                    v.push(cs[j] as u8);
                    j = j + 1;
                    assert(v@ =~= ascii_bytes(cs@).take(j as int));
                }
                assert(ascii_bytes(cs@).take(j as int) =~= ascii_bytes(cs@));
                if t.appends_newline() {
                    v.push(10u8);
                }
                let e = String::new();
                assert(e@ == Seq::<char>::empty());
                assert(v@ =~= ascii_bytes(text@) + (if task_newline(t) {
                    seq![10u8]
                } else {
                    Seq::empty()
                }));
                Ok((v, e, false))
            },
        }
    }

    fn run_expr(&self, e: &Expr) -> (r: Result<(Vec<u8>, String, bool), String>)
        requires
            self.wf(),
        ensures
            stmt_result(r, expr_effect(view_expr(*e), self@), self@, self@),
    {
        match top_eval(e, None, self) {
            Err(m) => Err(m),
            Ok(v) => {
                let t: Vec<u8> = Vec::new();
                assert(t@ =~= Seq::<u8>::empty());
                Ok((t, crate::canonical::canonical(&v), false))
            },
        }
    }

    /// Runs one statement.
    #[verifier::spinoff_prover]
    #[verifier::rlimit(50)]
    fn run_stmt(&mut self, st: &crate::ast::Stmt) -> (r: Result<(Vec<u8>, String, bool), String>)
        requires
            old(self).wf(),
        ensures
            final(self).wf(),
            stmt_result(r, spec_stmt(old(self)@, crate::ast::view_stmt(*st)), old(self)@, final(self)@),
    {
        match st {
            crate::ast::Stmt::Expr(e) => {
                let u = crate::width::unwrap_grouped(e);
                match u {
                    Expr::SystemCall { name, args } => match classify_system_call(name.as_str()) {
                        Ok(SystemCallKind::Task(t)) => self.run_task(t, name.as_str(), args),
                        _ => self.run_expr(e),
                    },
                    _ => self.run_expr(e),
                }
            },
            crate::ast::Stmt::Decl { kind, signed, range, names } => {
                match self.declare(*kind, *signed, range, names) {
                    Err(m) => Err(m),
                    Ok(()) => {
                        let t: Vec<u8> = Vec::new();
                        assert(t@ =~= Seq::<u8>::empty());
                        let e = String::new();
                        assert(e@ == Seq::<char>::empty());
                        Ok((t, e, false))
                    },
                }
            },
            crate::ast::Stmt::Assign { lvalue, rhs } => match lvalue {
                crate::ast::LValue::Name(n) => match self.assign(n.as_str(), rhs) {
                    Err(m) => Err(m),
                    Ok(shown) => {
                        let t: Vec<u8> = Vec::new();
                        assert(t@ =~= Seq::<u8>::empty());
                        Ok((t, shown, false))
                    },
                },
                _ => Err(owned("Semantic error: only a whole variable can be assigned by the integer evaluator")),
            },
        }
    }

    /// Evaluates one input line against the session's variables.
    #[verifier::spinoff_prover]
    #[verifier::rlimit(100)]
    pub fn eval(&mut self, input: &str) -> (r: Result<crate::Evaluation, String>)
        requires
            old(self).wf(),
        ensures
            final(self).wf(),
            final(self)@ == spec_eval(old(self)@, input@).1,
            match spec_eval(old(self)@, input@).0 {
                Ok((t, o, x)) => r matches Ok(ev) && ev.task_output@ == t && ev.output@ == o
                    && ev.should_exit == x,
                Err(m) => r matches Err(e) && e@ == m,
            },
    {
        let text = crate::text::trim(input);
        if crate::text::chars_of(text.as_str()).len() == 0 {
            let t: Vec<u8> = Vec::new();
            assert(t@ =~= Seq::<u8>::empty());
            let e = String::new();
            return Ok(crate::Evaluation { task_output: t, output: e, should_exit: false });
        }
        let (stmts, semi) = match crate::parser::parse_statements(text.as_str()) {
            Ok(p) => p,
            Err(m) => return Err(prefixed("Syntax error: ", m.as_str())),
        };
        let ghost vs = crate::ast::view_stmts(stmts@);
        let ghost v0 = self@;
        let mut task: Vec<u8> = Vec::new();
        let mut last = String::new();
        let mut last_expr = false;
        let mut exit = false;
        let mut k: usize = 0;
        assert(vs.take(0) =~= Seq::<crate::ast::SStmt>::empty());
        assert(task@ =~= Seq::<u8>::empty());
        while k < stmts.len() && !exit
            invariant
                k <= stmts@.len(),
                vs == crate::ast::view_stmts(stmts@),
                vs.len() == stmts@.len(),
                self.wf(),
                v0 == old(self)@,
                text@ == crate::text::trimmed(input@),
                text@.len() != 0,
                crate::parser::spec_parse_statements(text@) == Ok::<(Seq<crate::ast::SStmt>, bool), Seq<char>>((vs, semi)),
                run_stmts(v0, vs.take(k as int)) == Ok::<RunState, (Seq<char>, Vars)>(
                    RunState { task: task@, last: last@, last_expr, exit, vars: self@ },
                ),
            decreases stmts@.len() - k + (if exit { 0int } else { 1int }),
        {
            let st = &stmts[k];
            assert(vs[k as int] == crate::ast::view_stmt(stmts@[k as int]));
            assert(vs.take(k + 1).drop_last() =~= vs.take(k as int));
            assert(vs.take(k + 1).last() == vs[k as int]);
            let ghost before = self@;
            match self.run_stmt(st) {
                Err(m) => {
                    proof {
                        lemma_run_stops(v0, vs, k + 1);
                    }
                    return Err(m);
                },
                Ok((t, o, x)) => {
                    let mut j: usize = 0;
                    let ghost tb = task@;
                    while j < t.len()
                        invariant
                            j <= t@.len(),
                            task@ == tb + t@.take(j as int),
                        decreases t@.len() - j,
                    {
                        task.push(t[j]);
                        j = j + 1;
                        assert(task@ =~= tb + t@.take(j as int));
                    }
                    assert(t@.take(j as int) =~= t@);
                    last = o;
                    last_expr = match st {
                        crate::ast::Stmt::Expr(_) => true,
                        _ => false,
                    };
                    exit = x;
                },
            }
            k = k + 1;
        }
        if exit {
            proof {
                lemma_run_stops(v0, vs, k as int);
            }
            let e = String::new();
            return Ok(crate::Evaluation { task_output: task, output: e, should_exit: true });
        }
        assert(vs.take(k as int) =~= vs);
        let output = if semi || !last_expr {
            String::new()
        } else {
            last
        };
        Ok(crate::Evaluation { task_output: task, output, should_exit: false })
    }
}

} // verus!

//! Static properties of expressions that need no variable values: whether an
//! operand has indefinite width (LRM 5.1.14), and the expression under any
//! redundant parentheses.
use crate::ast::{BinaryOp, Expr, SExpr, UnaryOp, view_expr};
use vstd::prelude::*;

verus! {

/// Unary operators whose result width comes from their operand.
pub open spec fn unary_keeps_width(op: UnaryOp) -> bool {
    op == UnaryOp::Plus || op == UnaryOp::Minus || op == UnaryOp::BitwiseNot
}

/// Binary operators whose result width comes from both operands.
pub open spec fn binary_joins_widths(op: BinaryOp) -> bool {
    op == BinaryOp::Add || op == BinaryOp::Subtract || op == BinaryOp::Multiply || op
        == BinaryOp::Divide || op == BinaryOp::Modulus || op == BinaryOp::BitwiseAnd || op
        == BinaryOp::BitwiseOr || op == BinaryOp::BitwiseXor || op == BinaryOp::BitwiseXnor
}

/// Binary operators whose result width comes from the left operand alone.
pub open spec fn binary_keeps_lhs_width(op: BinaryOp) -> bool {
    op == BinaryOp::Power || op == BinaryOp::LogicalShiftLeft || op == BinaryOp::LogicalShiftRight
        || op == BinaryOp::ArithmeticShiftLeft || op == BinaryOp::ArithmeticShiftRight
}

/// An unsized literal (or a real) decides the width of `e` through
/// width-propagating operators: arithmetic and bitwise operands, shift and
/// power left operands, conditional branches, and unary `+`, `-`, `~`.
pub open spec fn indefinite(e: SExpr) -> bool
    decreases e,
{
    match e {
        SExpr::Literal(l) => l.unsized_literal,
        SExpr::RealLiteral(_) => true,
        SExpr::Grouped(i) => indefinite(*i),
        SExpr::Unary { op, expr } => unary_keeps_width(op) && indefinite(*expr),
        SExpr::Binary { op, lhs, rhs } => (binary_joins_widths(op) && (indefinite(*lhs)
            || indefinite(*rhs))) || (binary_keeps_lhs_width(op) && indefinite(*lhs)),
        SExpr::Conditional { then_expr, else_expr, .. } => indefinite(*then_expr) || indefinite(
            *else_expr,
        ),
        _ => false,
    }
}

/// What the width analysis of `e` finds, walking its width-propagating operands right
/// to left and stopping at the first unsized literal or real: `Some(true)` or
/// `Some(false)` when it comes to a verdict, `None` when it first meets a
/// display placeholder, on which the analysis has nothing to say.
pub open spec fn width_walk(e: SExpr) -> Option<bool>
    decreases e,
{
    match e {
        SExpr::Literal(l) => Some(l.unsized_literal),
        SExpr::RealLiteral(_) => Some(true),
        SExpr::Truncated => None,
        SExpr::Grouped(i) => width_walk(*i),
        SExpr::Unary { op, expr } => if unary_keeps_width(op) {
            width_walk(*expr)
        } else {
            Some(false)
        },
        SExpr::Binary { op, lhs, rhs } => if binary_joins_widths(op) {
            match width_walk(*rhs) {
                Some(false) => width_walk(*lhs),
                other => other,
            }
        } else if binary_keeps_lhs_width(op) {
            width_walk(*lhs)
        } else {
            Some(false)
        },
        SExpr::Conditional { then_expr, else_expr, .. } => match width_walk(*else_expr) {
            Some(false) => width_walk(*then_expr),
            other => other,
        },
        _ => Some(false),
    }
}

fn unary_keeps(op: UnaryOp) -> (r: bool)
    ensures
        r == unary_keeps_width(op),
{
    match op {
        UnaryOp::Plus | UnaryOp::Minus | UnaryOp::BitwiseNot => true,
        _ => false,
    }
}

fn binary_joins(op: BinaryOp) -> (r: bool)
    ensures
        r == binary_joins_widths(op),
{
    match op {
        BinaryOp::Add | BinaryOp::Subtract | BinaryOp::Multiply | BinaryOp::Divide
        | BinaryOp::Modulus | BinaryOp::BitwiseAnd | BinaryOp::BitwiseOr | BinaryOp::BitwiseXor
        | BinaryOp::BitwiseXnor => true,
        _ => false,
    }
}

fn binary_keeps_lhs(op: BinaryOp) -> (r: bool)
    ensures
        r == binary_keeps_lhs_width(op),
{
    match op {
        BinaryOp::Power | BinaryOp::LogicalShiftLeft | BinaryOp::LogicalShiftRight
        | BinaryOp::ArithmeticShiftLeft | BinaryOp::ArithmeticShiftRight => true,
        _ => false,
    }
}

/// Whether `expr` has an indefinite width, which makes it unfit as a
/// concatenation operand. The analysis visits right operands before left ones
/// and stops at the first unsized literal or real; a display placeholder met
/// before that is outside what it accepts.
pub fn is_indefinite_width(expr: &Expr) -> (r: bool)
    requires
        width_walk(view_expr(*expr)) is Some,
    ensures
        width_walk(view_expr(*expr)) == Some(r),
        r == indefinite(view_expr(*expr)),
    decreases expr,
{
    match expr {
        Expr::Literal(l) => l.unsized_literal,
        Expr::RealLiteral(_) => true,
        Expr::Grouped(i) => is_indefinite_width(&**i),
        Expr::Unary { op, expr: inner } => unary_keeps(*op) && is_indefinite_width(&**inner),
        Expr::Binary { op, lhs, rhs } => {
            if binary_joins(*op) {
                is_indefinite_width(&**rhs) || is_indefinite_width(&**lhs)
            } else if binary_keeps_lhs(*op) {
                is_indefinite_width(&**lhs)
            } else {
                false
            }
        },
        Expr::Conditional { then_expr, else_expr, .. } => is_indefinite_width(&**else_expr)
            || is_indefinite_width(&**then_expr),
        _ => false,
    }
}

/// `e` without its outer parentheses.
pub open spec fn ungrouped(e: SExpr) -> SExpr
    decreases e,
{
    match e {
        SExpr::Grouped(i) => ungrouped(*i),
        _ => e,
    }
}

/// The expression inside any number of redundant parentheses.
pub fn unwrap_grouped(expr: &Expr) -> (r: &Expr)
    ensures
        view_expr(*r) == ungrouped(view_expr(*expr)),
    decreases expr,
{
    match expr {
        Expr::Grouped(i) => unwrap_grouped(&**i),
        _ => expr,
    }
}

} // verus!

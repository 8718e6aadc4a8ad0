//! Syntax tree of REPL statements, and its mathematical model.
use crate::bignum::biguint_value;
use num_bigint::BigUint;
use vstd::prelude::*;

verus! {

/// The radix a literal is written in.
#[derive(Clone, Copy, Debug, PartialEq, Eq, Structural)]
pub enum Base {
    Binary,
    Octal,
    Decimal,
    Hex,
}

/// One bit of a four-state value.
#[derive(Clone, Copy, Debug, PartialEq, Eq, Structural)]
pub enum LogicBit {
    Zero,
    One,
    X,
    Z,
}

/// Prefix operators: sign, negations and the reductions (LRM 5.1).
#[derive(Clone, Copy, Debug, PartialEq, Eq, Structural)]
pub enum UnaryOp {
    Plus,
    Minus,
    LogicalNot,
    BitwiseNot,
    ReductionAnd,
    ReductionNand,
    ReductionOr,
    ReductionNor,
    ReductionXor,
    ReductionXnor,
}

/// Binary operators (LRM 5.1).
#[derive(Clone, Copy, Debug, PartialEq, Eq, Structural)]
pub enum BinaryOp {
    Add,
    Subtract,
    Multiply,
    Divide,
    Modulus,
    Power,
    LessThan,
    GreaterThan,
    LessThanOrEqual,
    GreaterThanOrEqual,
    Equal,
    NotEqual,
    CaseEqual,
    CaseNotEqual,
    LogicalAnd,
    LogicalOr,
    BitwiseAnd,
    BitwiseOr,
    BitwiseXor,
    BitwiseXnor,
    LogicalShiftLeft,
    LogicalShiftRight,
    ArithmeticShiftLeft,
    ArithmeticShiftRight,
}

/// Which keyword introduced a declaration.
#[derive(Clone, Copy, Debug, PartialEq, Eq, Structural)]
pub enum DeclKind {
    Reg,
    Integer,
    Real,
}

pub open spec fn decl_keyword(k: DeclKind) -> Seq<char> {
    match k {
        DeclKind::Reg => "reg"@,
        DeclKind::Integer => "integer"@,
        DeclKind::Real => "real"@,
    }
}

impl DeclKind {
    /// The keyword that introduces a declaration of this kind.
    pub fn keyword(self) -> (r: &'static str)
        ensures
            r@ == decl_keyword(self),
    {
        match self {
            DeclKind::Reg => "reg",
            DeclKind::Integer => "integer",
            DeclKind::Real => "real",
        }
    }
}

/// Parse-time payload of an integer literal; the full bit vector of `width`
/// bits is never built here.
#[derive(Debug, PartialEq)]
pub enum LiteralPayload {
    Numeric { magnitude: BigUint },
    Bits { low_bits: Vec<LogicBit>, fill: LogicBit },
}

/// What an integer literal says: its width and signedness, the radix it was
/// written in, whether it was unsized, and its value.
#[derive(Debug, PartialEq)]
pub struct LiteralSpec {
    pub width: usize,
    pub signed: bool,
    pub base: Base,
    pub unsized_literal: bool,
    pub payload: LiteralPayload,
}

/// An expression as the parser builds it.
#[derive(Debug, PartialEq)]
pub enum Expr {
    Literal(LiteralSpec),
    StringLiteral(Vec<u8>),
    /// A real constant, kept as its literal text with underscores removed.
    RealLiteral(String),
    Grouped(Box<Expr>),
    Unary { op: UnaryOp, expr: Box<Expr> },
    Binary { op: BinaryOp, lhs: Box<Expr>, rhs: Box<Expr> },
    Conditional { cond: Box<Expr>, then_expr: Box<Expr>, else_expr: Box<Expr> },
    Concatenation { items: Vec<Expr> },
    Replication { count: Box<Expr>, items: Vec<Expr> },
    SystemCall { name: String, args: Vec<SystemArg> },
    Identifier(String),
    Select { name: String, kind: SelectKind, inner: Option<Box<SelectKind>> },
    /// Placeholder for a sub-tree cut off by display truncation.
    Truncated,
}

/// One argument of a system call; `Null` is an empty argument of a task.
#[derive(Debug, PartialEq)]
pub enum SystemArg {
    Expr(Expr),
    Null,
}

/// `[i]`, `[m:l]`, `[b +: w]` or `[b -: w]` after a name.
#[derive(Debug, PartialEq)]
pub enum SelectKind {
    Bit { index: Box<Expr> },
    PartConst { msb: Box<Expr>, lsb: Box<Expr> },
    PartIndexedUp { base: Box<Expr>, width: Box<Expr> },
    PartIndexedDown { base: Box<Expr>, width: Box<Expr> },
}

/// One declared name, with its initializer or its array dimension.
#[derive(Debug, PartialEq)]
pub struct DeclName {
    pub name: String,
    pub init: Option<Expr>,
    pub dim: Option<(Expr, Expr)>,
}

/// The target of a blocking assignment.
#[derive(Debug, PartialEq)]
pub enum LValue {
    Name(String),
    Select { name: String, kind: SelectKind, inner: Option<Box<SelectKind>> },
    Concat(Vec<LValue>),
    Truncated,
}

/// One statement: an expression, a declaration or an assignment.
#[derive(Debug, PartialEq)]
pub enum Stmt {
    Expr(Expr),
    Decl { kind: DeclKind, signed: bool, range: Option<(Expr, Expr)>, names: Vec<DeclName> },
    Assign { lvalue: LValue, rhs: Expr },
}

// ----- mathematical model -----
/// The value of a literal: a magnitude, or four-state bits and a fill bit.
pub enum SPayload {
    Numeric { magnitude: nat },
    Bits { low_bits: Seq<LogicBit>, fill: LogicBit },
}

pub struct SLiteral {
    pub width: usize,
    pub signed: bool,
    pub base: Base,
    pub unsized_literal: bool,
    pub payload: SPayload,
}

/// The mathematical form of `Expr` (strings and vectors as sequences).
pub enum SExpr {
    Literal(SLiteral),
    StringLiteral(Seq<u8>),
    RealLiteral(Seq<char>),
    Grouped(Box<SExpr>),
    Unary { op: UnaryOp, expr: Box<SExpr> },
    Binary { op: BinaryOp, lhs: Box<SExpr>, rhs: Box<SExpr> },
    Conditional { cond: Box<SExpr>, then_expr: Box<SExpr>, else_expr: Box<SExpr> },
    Concatenation { items: Seq<SExpr> },
    Replication { count: Box<SExpr>, items: Seq<SExpr> },
    SystemCall { name: Seq<char>, args: Seq<SArg> },
    Identifier(Seq<char>),
    Select { name: Seq<char>, kind: SSelect, inner: Option<SSelect> },
    Truncated,
}

pub enum SArg {
    Expr(SExpr),
    Null,
}

pub enum SSelect {
    Bit { index: Box<SExpr> },
    PartConst { msb: Box<SExpr>, lsb: Box<SExpr> },
    PartIndexedUp { base: Box<SExpr>, width: Box<SExpr> },
    PartIndexedDown { base: Box<SExpr>, width: Box<SExpr> },
}

pub struct SDeclName {
    pub name: Seq<char>,
    pub init: Option<SExpr>,
    pub dim: Option<(SExpr, SExpr)>,
}

pub enum SLValue {
    Name(Seq<char>),
    Select { name: Seq<char>, kind: SSelect, inner: Option<SSelect> },
    Concat(Seq<SLValue>),
    Truncated,
}

pub enum SStmt {
    Expr(SExpr),
    Decl { kind: DeclKind, signed: bool, range: Option<(SExpr, SExpr)>, names: Seq<SDeclName> },
    Assign { lvalue: SLValue, rhs: SExpr },
}

impl View for LiteralSpec {
    type V = SLiteral;

    open spec fn view(&self) -> SLiteral {
        SLiteral {
            width: self.width,
            signed: self.signed,
            base: self.base,
            unsized_literal: self.unsized_literal,
            payload: match &self.payload {
                LiteralPayload::Numeric { magnitude } => SPayload::Numeric {
                    magnitude: biguint_value(*magnitude),
                },
                LiteralPayload::Bits { low_bits, fill } => SPayload::Bits {
                    low_bits: low_bits@,
                    fill: *fill,
                },
            },
        }
    }
}

pub open spec fn view_expr(e: Expr) -> SExpr
    decreases e,
{
    match e {
        Expr::Literal(l) => SExpr::Literal(l@),
        Expr::StringLiteral(b) => SExpr::StringLiteral(b@),
        Expr::RealLiteral(t) => SExpr::RealLiteral(t@),
        Expr::Grouped(i) => SExpr::Grouped(Box::new(view_expr(*i))),
        Expr::Unary { op, expr } => SExpr::Unary { op, expr: Box::new(view_expr(*expr)) },
        Expr::Binary { op, lhs, rhs } => SExpr::Binary {
            op,
            lhs: Box::new(view_expr(*lhs)),
            rhs: Box::new(view_expr(*rhs)),
        },
        Expr::Conditional { cond, then_expr, else_expr } => SExpr::Conditional {
            cond: Box::new(view_expr(*cond)),
            then_expr: Box::new(view_expr(*then_expr)),
            else_expr: Box::new(view_expr(*else_expr)),
        },
        Expr::Concatenation { items } => SExpr::Concatenation { items: view_exprs(items@) },
        Expr::Replication { count, items } => SExpr::Replication {
            count: Box::new(view_expr(*count)),
            items: view_exprs(items@),
        },
        Expr::SystemCall { name, args } => SExpr::SystemCall { name: name@, args: view_args(args@) },
        Expr::Identifier(n) => SExpr::Identifier(n@),
        Expr::Select { name, kind, inner } => SExpr::Select {
            name: name@,
            kind: view_select(kind),
            inner: match inner {
                Some(k) => Some(view_select(*k)),
                None => None,
            },
        },
        Expr::Truncated => SExpr::Truncated,
    }
}

pub open spec fn view_exprs(s: Seq<Expr>) -> Seq<SExpr>
    decreases s,
{
    if s.len() == 0 {
        Seq::empty()
    } else {
        view_exprs(s.drop_last()).push(view_expr(s.last()))
    }
}

pub open spec fn view_args(s: Seq<SystemArg>) -> Seq<SArg>
    decreases s,
{
    if s.len() == 0 {
        Seq::empty()
    } else {
        view_args(s.drop_last()).push(
            match s.last() {
                SystemArg::Expr(e) => SArg::Expr(view_expr(e)),
                SystemArg::Null => SArg::Null,
            },
        )
    }
}

pub open spec fn view_select(k: SelectKind) -> SSelect
    decreases k,
{
    match k {
        SelectKind::Bit { index } => SSelect::Bit { index: Box::new(view_expr(*index)) },
        SelectKind::PartConst { msb, lsb } => SSelect::PartConst {
            msb: Box::new(view_expr(*msb)),
            lsb: Box::new(view_expr(*lsb)),
        },
        SelectKind::PartIndexedUp { base, width } => SSelect::PartIndexedUp {
            base: Box::new(view_expr(*base)),
            width: Box::new(view_expr(*width)),
        },
        SelectKind::PartIndexedDown { base, width } => SSelect::PartIndexedDown {
            base: Box::new(view_expr(*base)),
            width: Box::new(view_expr(*width)),
        },
    }
}

pub open spec fn view_lvalue(l: LValue) -> SLValue
    decreases l,
{
    match l {
        LValue::Name(n) => SLValue::Name(n@),
        LValue::Select { name, kind, inner } => SLValue::Select {
            name: name@,
            kind: view_select(kind),
            inner: match inner {
                Some(k) => Some(view_select(*k)),
                None => None,
            },
        },
        LValue::Concat(items) => SLValue::Concat(view_lvalues(items@)),
        LValue::Truncated => SLValue::Truncated,
    }
}

pub open spec fn view_lvalues(s: Seq<LValue>) -> Seq<SLValue>
    decreases s,
{
    if s.len() == 0 {
        Seq::empty()
    } else {
        view_lvalues(s.drop_last()).push(view_lvalue(s.last()))
    }
}

pub open spec fn view_opt_expr(e: Option<Expr>) -> Option<SExpr> {
    match e {
        Some(x) => Some(view_expr(x)),
        None => None,
    }
}

pub open spec fn view_opt_pair(p: Option<(Expr, Expr)>) -> Option<(SExpr, SExpr)> {
    match p {
        Some((a, b)) => Some((view_expr(a), view_expr(b))),
        None => None,
    }
}

pub open spec fn view_decl_name(d: DeclName) -> SDeclName {
    SDeclName { name: d.name@, init: view_opt_expr(d.init), dim: view_opt_pair(d.dim) }
}

pub open spec fn view_decl_names(s: Seq<DeclName>) -> Seq<SDeclName> {
    s.map_values(|d: DeclName| view_decl_name(d))
}

pub open spec fn view_stmt(s: Stmt) -> SStmt {
    match s {
        Stmt::Expr(e) => SStmt::Expr(view_expr(e)),
        Stmt::Decl { kind, signed, range, names } => SStmt::Decl {
            kind,
            signed,
            range: view_opt_pair(range),
            names: view_decl_names(names@),
        },
        Stmt::Assign { lvalue, rhs } => SStmt::Assign {
            lvalue: view_lvalue(lvalue),
            rhs: view_expr(rhs),
        },
    }
}

pub open spec fn view_stmts(s: Seq<Stmt>) -> Seq<SStmt> {
    s.map_values(|x: Stmt| view_stmt(x))
}

/// How a unary operator is written.
pub open spec fn unary_symbol(op: UnaryOp) -> Seq<char> {
    match op {
        UnaryOp::Plus => "+"@,
        UnaryOp::Minus => "-"@,
        UnaryOp::LogicalNot => "!"@,
        UnaryOp::BitwiseNot => "~"@,
        UnaryOp::ReductionAnd => "&"@,
        UnaryOp::ReductionNand => "~&"@,
        UnaryOp::ReductionOr => "|"@,
        UnaryOp::ReductionNor => "~|"@,
        UnaryOp::ReductionXor => "^"@,
        UnaryOp::ReductionXnor => "~^"@,
    }
}

/// How a binary operator is written.
pub open spec fn binary_symbol(op: BinaryOp) -> Seq<char> {
    match op {
        BinaryOp::Add => "+"@,
        BinaryOp::Subtract => "-"@,
        BinaryOp::Multiply => "*"@,
        BinaryOp::Divide => "/"@,
        BinaryOp::Modulus => "%"@,
        BinaryOp::Power => "**"@,
        BinaryOp::LessThan => "<"@,
        BinaryOp::GreaterThan => ">"@,
        BinaryOp::LessThanOrEqual => "<="@,
        BinaryOp::GreaterThanOrEqual => ">="@,
        BinaryOp::Equal => "=="@,
        BinaryOp::NotEqual => "!="@,
        BinaryOp::CaseEqual => "==="@,
        BinaryOp::CaseNotEqual => "!=="@,
        BinaryOp::LogicalAnd => "&&"@,
        BinaryOp::LogicalOr => "||"@,
        BinaryOp::BitwiseAnd => "&"@,
        BinaryOp::BitwiseOr => "|"@,
        BinaryOp::BitwiseXor => "^"@,
        BinaryOp::BitwiseXnor => "~^"@,
        BinaryOp::LogicalShiftLeft => "<<"@,
        BinaryOp::LogicalShiftRight => ">>"@,
        BinaryOp::ArithmeticShiftLeft => "<<<"@,
        BinaryOp::ArithmeticShiftRight => ">>>"@,
    }
}

/// The source spelling of a unary operator, for messages.
pub fn unary_op_name(op: UnaryOp) -> (r: &'static str)
    ensures
        r@ == unary_symbol(op),
{
    match op {
        UnaryOp::Plus => "+",
        UnaryOp::Minus => "-",
        UnaryOp::LogicalNot => "!",
        UnaryOp::BitwiseNot => "~",
        UnaryOp::ReductionAnd => "&",
        UnaryOp::ReductionNand => "~&",
        UnaryOp::ReductionOr => "|",
        UnaryOp::ReductionNor => "~|",
        UnaryOp::ReductionXor => "^",
        UnaryOp::ReductionXnor => "~^",
    }
}

/// The source spelling of a binary operator, for messages.
pub fn binary_op_name(op: BinaryOp) -> (r: &'static str)
    ensures
        r@ == binary_symbol(op),
{
    match op {
        BinaryOp::Add => "+",
        BinaryOp::Subtract => "-",
        BinaryOp::Multiply => "*",
        BinaryOp::Divide => "/",
        BinaryOp::Modulus => "%",
        BinaryOp::Power => "**",
        BinaryOp::LessThan => "<",
        BinaryOp::GreaterThan => ">",
        BinaryOp::LessThanOrEqual => "<=",
        BinaryOp::GreaterThanOrEqual => ">=",
        BinaryOp::Equal => "==",
        BinaryOp::NotEqual => "!=",
        BinaryOp::CaseEqual => "===",
        BinaryOp::CaseNotEqual => "!==",
        BinaryOp::LogicalAnd => "&&",
        BinaryOp::LogicalOr => "||",
        BinaryOp::BitwiseAnd => "&",
        BinaryOp::BitwiseOr => "|",
        BinaryOp::BitwiseXor => "^",
        BinaryOp::BitwiseXnor => "~^",
        BinaryOp::LogicalShiftLeft => "<<",
        BinaryOp::LogicalShiftRight => ">>",
        BinaryOp::ArithmeticShiftLeft => "<<<",
        BinaryOp::ArithmeticShiftRight => ">>>",
    }
}

/// `bits` (least significant first) shifted left by `shift` places within
/// the same width, zeros coming in at the bottom.
pub fn shift_bits_left(bits: &[LogicBit], shift: usize) -> (r: Vec<LogicBit>)
    ensures
        r@.len() == bits@.len(),
        forall|i: int|
            0 <= i < bits@.len() ==> #[trigger] r@[i] == if i < shift {
                LogicBit::Zero
            } else {
                bits@[i - shift]
            },
{
    let width = bits.len();
    let mut r: Vec<LogicBit> = Vec::new();
    let mut i: usize = 0;
    while i < width
        invariant
            i <= width == bits@.len(),
            r@.len() == i,
            forall|k: int|
                0 <= k < i ==> #[trigger] r@[k] == if k < shift {
                    LogicBit::Zero
                } else {
                    bits@[k - shift]
                },
        decreases width - i,
    {
        if i < shift {
            r.push(LogicBit::Zero);
        } else {
            r.push(bits[i - shift]);
        }
        i = i + 1;
    }
    r
}

/// `bits` (least significant first) shifted right by `shift` places within
/// the same width, `fill` coming in at the top.
pub fn shift_bits_right(bits: &[LogicBit], shift: usize, fill: LogicBit) -> (r: Vec<LogicBit>)
    ensures
        r@.len() == bits@.len(),
        forall|i: int|
            0 <= i < bits@.len() ==> #[trigger] r@[i] == if i + shift < bits@.len() {
                bits@[i + shift]
            } else {
                fill
            },
{
    let width = bits.len();
    let mut r: Vec<LogicBit> = Vec::new();
    let mut i: usize = 0;
    while i < width
        invariant
            i <= width == bits@.len(),
            r@.len() == i,
            forall|k: int|
                0 <= k < i ==> #[trigger] r@[k] == if k + shift < width {
                    bits@[k + shift]
                } else {
                    fill
                },
        decreases width - i,
    {
        match i.checked_add(shift) {
            Some(src) => {
                if src < width {
                    r.push(bits[src]);
                } else {
                    r.push(fill);
                }
            },
            None => {
                r.push(fill);
            },
        }
        i = i + 1;
    }
    r
}

} // verus!

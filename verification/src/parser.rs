//! Statement and expression parser (Pratt precedence climbing, LRM Table 5-4).
use crate::ast::{
    decl_keyword, BinaryOp, DeclKind, DeclName, Expr, LValue, SArg, SDeclName, SExpr, SLValue, SSelect, SStmt,
    SelectKind, Stmt, SystemArg, UnaryOp, view_args, view_decl_names, view_expr, view_exprs,
    view_decl_name, view_lvalue, view_lvalues, view_opt_expr, view_opt_pair, view_select,
    view_stmt, view_stmts,
};
use crate::lexer::{STok, Token, spec_tokenize, tokenize, toks_view};
use crate::literal::{parse_integer, parse_real, spec_parse_integer, strip_underscores};
use crate::text::{append_str, owned};
use vstd::prelude::*;
use vstd::slice::slice_subrange;

verus! {

pub open spec fn tk(t: Seq<STok>, p: int) -> Option<STok> {
    if 0 <= p < t.len() {
        Some(t[p])
    } else {
        None
    }
}

/// Tokens left from `p` (the measure every parsing step reduces).
pub open spec fn left(t: Seq<STok>, p: int) -> int {
    if p <= t.len() {
        t.len() - p
    } else {
        0
    }
}

/// Binary operator, left and right binding power of an infix token.
pub open spec fn infix(tok: Option<STok>) -> Option<(BinaryOp, u8, u8)> {
    match tok {
        Some(STok::LogicalOr) => Some((BinaryOp::LogicalOr, 20, 21)),
        Some(STok::LogicalAnd) => Some((BinaryOp::LogicalAnd, 30, 31)),
        Some(STok::BitwiseOr) => Some((BinaryOp::BitwiseOr, 40, 41)),
        Some(STok::BitwiseXor) => Some((BinaryOp::BitwiseXor, 50, 51)),
        Some(STok::BitwiseXnor) => Some((BinaryOp::BitwiseXnor, 50, 51)),
        Some(STok::BitwiseAnd) => Some((BinaryOp::BitwiseAnd, 60, 61)),
        Some(STok::EqualEqual) => Some((BinaryOp::Equal, 70, 71)),
        Some(STok::NotEqual) => Some((BinaryOp::NotEqual, 70, 71)),
        Some(STok::CaseEqual) => Some((BinaryOp::CaseEqual, 70, 71)),
        Some(STok::CaseNotEqual) => Some((BinaryOp::CaseNotEqual, 70, 71)),
        Some(STok::Less) => Some((BinaryOp::LessThan, 80, 81)),
        Some(STok::Greater) => Some((BinaryOp::GreaterThan, 80, 81)),
        Some(STok::LessEqual) => Some((BinaryOp::LessThanOrEqual, 80, 81)),
        Some(STok::GreaterEqual) => Some((BinaryOp::GreaterThanOrEqual, 80, 81)),
        Some(STok::LogicalShiftLeft) => Some((BinaryOp::LogicalShiftLeft, 90, 91)),
        Some(STok::LogicalShiftRight) => Some((BinaryOp::LogicalShiftRight, 90, 91)),
        Some(STok::ArithmeticShiftLeft) => Some((BinaryOp::ArithmeticShiftLeft, 90, 91)),
        Some(STok::ArithmeticShiftRight) => Some((BinaryOp::ArithmeticShiftRight, 90, 91)),
        Some(STok::Plus) => Some((BinaryOp::Add, 100, 101)),
        Some(STok::Minus) => Some((BinaryOp::Subtract, 100, 101)),
        Some(STok::Star) => Some((BinaryOp::Multiply, 110, 111)),
        Some(STok::Slash) => Some((BinaryOp::Divide, 110, 111)),
        Some(STok::Percent) => Some((BinaryOp::Modulus, 110, 111)),
        Some(STok::Power) => Some((BinaryOp::Power, 120, 121)),
        _ => None,
    }
}

/// Left and right binding power of `?:` (below `||`, right-associative).
pub open spec fn cond_lbp() -> u8 {
    10
}

pub open spec fn cond_rbp() -> u8 {
    9
}

pub open spec fn prefix_op(tok: Option<STok>) -> Option<UnaryOp> {
    match tok {
        Some(STok::Plus) => Some(UnaryOp::Plus),
        Some(STok::Minus) => Some(UnaryOp::Minus),
        Some(STok::Bang) => Some(UnaryOp::LogicalNot),
        Some(STok::Tilde) => Some(UnaryOp::BitwiseNot),
        Some(STok::BitwiseAnd) => Some(UnaryOp::ReductionAnd),
        Some(STok::BitwiseOr) => Some(UnaryOp::ReductionOr),
        Some(STok::BitwiseXor) => Some(UnaryOp::ReductionXor),
        Some(STok::BitwiseXnor) => Some(UnaryOp::ReductionXnor),
        Some(STok::BitwiseNand) => Some(UnaryOp::ReductionNand),
        Some(STok::BitwiseNor) => Some(UnaryOp::ReductionNor),
        _ => None,
    }
}

/// The run of prefix operators at `p`.
pub open spec fn prefix_run(t: Seq<STok>, p: int) -> Seq<UnaryOp>
    decreases left(t, p),
{
    match prefix_op(tk(t, p)) {
        Some(op) => seq![op] + prefix_run(t, p + 1),
        None => Seq::empty(),
    }
}

/// `e` under the prefix operators `ops`, the rightmost innermost.
pub open spec fn wrap(ops: Seq<UnaryOp>, e: SExpr) -> SExpr
    decreases ops.len(),
{
    if ops.len() == 0 {
        e
    } else {
        wrap(ops.drop_last(), SExpr::Unary { op: ops.last(), expr: Box::new(e) })
    }
}

/// The system tasks, whose argument lists may hold empty (null) arguments.
pub open spec fn is_task_name(n: Seq<char>) -> bool {
    n == "$finish"@ || n == "$stop"@ || n == "$display"@ || n == "$displayb"@ || n
        == "$displayo"@ || n == "$displayh"@ || n == "$write"@ || n == "$writeb"@ || n
        == "$writeo"@ || n == "$writeh"@
}

/// An expression starting at `p` whose operators all bind at least `min_bp`;
/// on success, the expression and the number of tokens it spans.
pub open spec fn pexpr(t: Seq<STok>, p: int, min_bp: u8) -> Result<(SExpr, nat), Seq<char>>
    decreases left(t, p), 3int,
{
    match operand(t, p) {
        Err(m) => Err(m),
        Ok((lhs, c)) => match led(t, lhs, p + c, min_bp) {
            Ok((e, c2)) => Ok((e, c + c2)),
            Err(m) => Err(m),
        },
    }
}

/// Prefix operators followed by a parenthesized expression, a brace form, a
/// system call, or a primary.
pub open spec fn operand(t: Seq<STok>, p: int) -> Result<(SExpr, nat), Seq<char>>
    decreases left(t, p), 2int,
{
    let ops = prefix_run(t, p);
    let q = p + ops.len();
    match tk(t, q) {
        Some(STok::LParen) => match pexpr(t, q + 1, 0) {
            Err(m) => Err(m),
            Ok((inner, c)) => if tk(t, q + 1 + c) == Some(STok::RParen) {
                Ok((wrap(ops, SExpr::Grouped(Box::new(inner))), (q + 2 + c - p) as nat))
            } else {
                Err("missing closing parenthesis"@)
            },
        },
        Some(STok::LBrace) => match brace(t, q + 1, Seq::empty()) {
            Err(m) => Err(m),
            Ok((e, c)) => Ok((wrap(ops, e), (q + 1 + c - p) as nat)),
        },
        Some(STok::SystemIdentifier(name)) => match syscall(t, name, q + 1) {
            Err(m) => Err(m),
            Ok((e, c)) => Ok((wrap(ops, e), (q + 1 + c - p) as nat)),
        },
        _ => match primary(t, q) {
            Err(m) => Err(m),
            Ok((e, c)) => Ok((wrap(ops, e), (q + c - p) as nat)),
        },
    }
}

/// A system call `$name`, `$name()` or `$name(args)` after its name.
pub open spec fn syscall(t: Seq<STok>, name: Seq<char>, p: int) -> Result<(SExpr, nat), Seq<char>>
    decreases left(t, p), 4int,
{
    if tk(t, p) != Some(STok::LParen) {
        Ok((SExpr::SystemCall { name, args: Seq::empty() }, 0))
    } else if tk(t, p + 1) == Some(STok::RParen) {
        Ok((SExpr::SystemCall { name, args: Seq::empty() }, 2))
    } else {
        match sysargs(t, name, p + 1, Seq::empty()) {
            Err(m) => Err(m),
            Ok((args, c)) => Ok((SExpr::SystemCall { name, args }, c + 1)),
        }
    }
}

/// Extends `lhs` (which ends before `p`) with `?:` and binary operators that
/// bind at least `min_bp`.
pub open spec fn led(t: Seq<STok>, lhs: SExpr, p: int, min_bp: u8) -> Result<(SExpr, nat), Seq<char>>
    decreases left(t, p), 1int,
{
    if tk(t, p) == Some(STok::Question) && cond_lbp() >= min_bp {
        match pexpr(t, p + 1, 0) {
            Err(m) => Err(m),
            Ok((th, c1)) => if tk(t, p + 1 + c1) == Some(STok::Colon) {
                match pexpr(t, p + 2 + c1, cond_rbp()) {
                    Err(m) => Err(m),
                    Ok((el, c2)) => {
                        let r = p + 2 + c1 + c2;
                        let e = SExpr::Conditional {
                            cond: Box::new(lhs),
                            then_expr: Box::new(th),
                            else_expr: Box::new(el),
                        };
                        match led(t, e, r, min_bp) {
                            Err(m) => Err(m),
                            Ok((x, c3)) => Ok((x, (r + c3 - p) as nat)),
                        }
                    },
                }
            } else {
                Err("expected `:` in conditional expression"@)
            },
        }
    } else {
        match infix(tk(t, p)) {
            Some((op, lbp, rbp)) => if lbp >= min_bp {
                match pexpr(t, p + 1, rbp) {
                    Err(m) => Err(m),
                    Ok((rhs, c)) => {
                        let r = p + 1 + c;
                        let e = SExpr::Binary { op, lhs: Box::new(lhs), rhs: Box::new(rhs) };
                        match led(t, e, r, min_bp) {
                            Err(m) => Err(m),
                            Ok((x, c3)) => Ok((x, (r + c3 - p) as nat)),
                        }
                    },
                }
            } else {
                Ok((lhs, 0))
            },
            None => Ok((lhs, 0)),
        }
    }
}

/// Items of `{a, b, ...}` after the opening brace (or after a comma), with the
/// items read so far; a first item followed by `{` starts a replication.
pub open spec fn brace(t: Seq<STok>, p: int, items: Seq<SExpr>) -> Result<(SExpr, nat), Seq<char>>
    decreases left(t, p), 4int,
{
    match pexpr(t, p, 0) {
        Err(m) => Err(m),
        Ok((v, c)) => {
            let r = p + c;
            if tk(t, r) == Some(STok::Comma) {
                match brace(t, r + 1, items.push(v)) {
                    Err(m) => Err(m),
                    Ok((e, c2)) => Ok((e, (r + 1 + c2 - p) as nat)),
                }
            } else if tk(t, r) == Some(STok::RBrace) {
                Ok((SExpr::Concatenation { items: items.push(v) }, (r + 1 - p) as nat))
            } else if items.len() == 0 && tk(t, r) == Some(STok::LBrace) {
                match repl(t, r + 1, v, Seq::empty()) {
                    Err(m) => Err(m),
                    Ok((e, c2)) => Ok((e, (r + 1 + c2 - p) as nat)),
                }
            } else {
                Err("missing closing brace in concatenation"@)
            }
        },
    }
}

/// Items of `{count{a, b, ...}}` after the inner opening brace (or a comma).
pub open spec fn repl(t: Seq<STok>, p: int, count: SExpr, items: Seq<SExpr>) -> Result<
    (SExpr, nat),
    Seq<char>,
>
    decreases left(t, p), 4int,
{
    match pexpr(t, p, 0) {
        Err(m) => Err(m),
        Ok((v, c)) => {
            let r = p + c;
            if tk(t, r) == Some(STok::Comma) {
                match repl(t, r + 1, count, items.push(v)) {
                    Err(m) => Err(m),
                    Ok((e, c2)) => Ok((e, (r + 1 + c2 - p) as nat)),
                }
            } else if tk(t, r) == Some(STok::RBrace) {
                if tk(t, r + 1) == Some(STok::RBrace) {
                    Ok(
                        (
                            SExpr::Replication { count: Box::new(count), items: items.push(v) },
                            (r + 2 - p) as nat,
                        ),
                    )
                } else {
                    Err("missing closing brace in replication"@)
                }
            } else {
                Err("missing closing brace in concatenation"@)
            }
        },
    }
}

/// Arguments of `$name(...)` after the opening parenthesis (or a comma), with
/// the arguments read so far; the count includes the closing parenthesis.
pub open spec fn sysargs(t: Seq<STok>, name: Seq<char>, p: int, args: Seq<SArg>) -> Result<
    (Seq<SArg>, nat),
    Seq<char>,
>
    decreases left(t, p), 4int,
{
    if is_task_name(name) && tk(t, p) == Some(STok::Comma) {
        match sysargs(t, name, p + 1, args.push(SArg::Null)) {
            Err(m) => Err(m),
            Ok((a, c)) => Ok((a, c + 1)),
        }
    } else if is_task_name(name) && tk(t, p) == Some(STok::RParen) {
        Ok((args.push(SArg::Null), 1))
    } else {
        match pexpr(t, p, 0) {
            Err(m) => Err(m),
            Ok((v, c)) => {
                let r = p + c;
                if tk(t, r) == Some(STok::Comma) {
                    match sysargs(t, name, r + 1, args.push(SArg::Expr(v))) {
                        Err(m) => Err(m),
                        Ok((a, c2)) => Ok((a, (r + 1 + c2 - p) as nat)),
                    }
                } else if tk(t, r) == Some(STok::RParen) {
                    Ok((args.push(SArg::Expr(v)), (r + 1 - p) as nat))
                } else {
                    Err("expected `)` after "@ + name + " argument"@)
                }
            },
        }
    }
}

/// A literal, an identifier, or an identifier with selects.
pub open spec fn primary(t: Seq<STok>, p: int) -> Result<(SExpr, nat), Seq<char>>
    decreases left(t, p), 1int,
{
    match tk(t, p) {
        Some(STok::IntegerLiteral(text)) => match spec_parse_integer(text) {
            Ok(l) => Ok((SExpr::Literal(l), 1)),
            Err(m) => Err(m),
        },
        Some(STok::StringLiteral(b)) => Ok((SExpr::StringLiteral(b), 1)),
        Some(STok::RealLiteral(text)) => Ok((SExpr::RealLiteral(strip_underscores(text)), 1)),
        Some(STok::Identifier(name)) => if tk(t, p + 1) == Some(STok::LBracket) {
            match select_after(t, name, p + 2) {
                Err(m) => Err(m),
                Ok((e, c)) => Ok((e, c + 2)),
            }
        } else {
            Ok((SExpr::Identifier(name), 1))
        },
        Some(STok::RParen) => Err("unexpected closing parenthesis"@),
        Some(_) => Err("expected expression operand"@),
        None => Err("unexpected end of expression"@),
    }
}

/// `name[...]` with at most one chained `[...]`, after the first `[`.
pub open spec fn select_after(t: Seq<STok>, name: Seq<char>, p: int) -> Result<(SExpr, nat), Seq<char>>
    decreases left(t, p), 5int,
{
    match select_kind(t, p) {
        Err(m) => Err(m),
        Ok((k, c)) => {
            let r = p + c;
            if tk(t, r) == Some(STok::LBracket) {
                match select_kind(t, r + 1) {
                    Err(m) => Err(m),
                    Ok((k2, c2)) => if tk(t, r + 1 + c2) == Some(STok::LBracket) {
                        Err("chained selects beyond one inner bracket are not supported"@)
                    } else {
                        Ok(
                            (
                                SExpr::Select { name, kind: k, inner: Some(k2) },
                                (r + 1 + c2 - p) as nat,
                            ),
                        )
                    },
                }
            } else {
                Ok((SExpr::Select { name, kind: k, inner: None }, c))
            }
        },
    }
}

/// An expression closed by `]`; the count includes the `]`.
pub open spec fn bracketed(t: Seq<STok>, p: int, msg: Seq<char>) -> Result<(SExpr, nat), Seq<char>>
    decreases left(t, p), 4int,
{
    match pexpr(t, p, 0) {
        Err(m) => Err(m),
        Ok((e, c)) => if tk(t, p + c) == Some(STok::RBracket) {
            Ok((e, c + 1))
        } else {
            Err(msg)
        },
    }
}

/// One select form inside `[...]`, after the `[`; the count includes the `]`.
pub open spec fn select_kind(t: Seq<STok>, p: int) -> Result<(SSelect, nat), Seq<char>>
    decreases left(t, p), 4int,
{
    match pexpr(t, p, 0) {
        Err(m) => Err(m),
        Ok((first, c)) => {
            let r = p + c;
            match tk(t, r) {
                Some(STok::RBracket) => Ok(
                    (SSelect::Bit { index: Box::new(first) }, (r + 1 - p) as nat),
                ),
                Some(STok::Colon) => match bracketed(
                    t,
                    r + 1,
                    "expected `]` after part-select range"@,
                ) {
                    Err(m) => Err(m),
                    Ok((lsb, c2)) => Ok(
                        (
                            SSelect::PartConst { msb: Box::new(first), lsb: Box::new(lsb) },
                            (r + 1 + c2 - p) as nat,
                        ),
                    ),
                },
                Some(STok::PlusColon) => match bracketed(
                    t,
                    r + 1,
                    "expected `]` after indexed part-select width"@,
                ) {
                    Err(m) => Err(m),
                    Ok((w, c2)) => Ok(
                        (
                            SSelect::PartIndexedUp { base: Box::new(first), width: Box::new(w) },
                            (r + 1 + c2 - p) as nat,
                        ),
                    ),
                },
                Some(STok::MinusColon) => match bracketed(
                    t,
                    r + 1,
                    "expected `]` after indexed part-select width"@,
                ) {
                    Err(m) => Err(m),
                    Ok((w, c2)) => Ok(
                        (
                            SSelect::PartIndexedDown { base: Box::new(first), width: Box::new(w) },
                            (r + 1 + c2 - p) as nat,
                        ),
                    ),
                },
                _ => Err("expected `]`, `:`, `+:`, or `-:` in select"@),
            }
        },
    }
}

pub open spec fn decl_kind_of(n: Seq<char>) -> Option<DeclKind> {
    if n == "reg"@ {
        Some(DeclKind::Reg)
    } else if n == "integer"@ {
        Some(DeclKind::Integer)
    } else if n == "real"@ {
        Some(DeclKind::Real)
    } else {
        None
    }
}

pub open spec fn is_reserved_name(n: Seq<char>) -> bool {
    n == "reg"@ || n == "integer"@ || n == "real"@ || n == "signed"@
}

pub open spec fn has_name(names: Seq<SDeclName>, n: Seq<char>) -> bool {
    exists|i: int| 0 <= i < names.len() && #[trigger] names[i].name == n
}

/// `[msb : lsb]` of an array dimension after a declared name at `p - 1`;
/// yields the dimension and the index just past it.
pub open spec fn decl_dim(t: Seq<STok>, p: int) -> Result<(Option<(SExpr, SExpr)>, int), Seq<char>> {
    if tk(t, p) == Some(STok::LBracket) {
        match pexpr(t, p + 1, 0) {
            Err(m) => Err(m),
            Ok((msb, c1)) => {
                let r = p + 1 + c1;
                if tk(t, r) != Some(STok::Colon) {
                    Err("expected `:` in array dimension"@)
                } else {
                    match pexpr(t, r + 1, 0) {
                        Err(m) => Err(m),
                        Ok((lsb, c2)) => {
                            let r2 = r + 1 + c2;
                            if tk(t, r2) != Some(STok::RBracket) {
                                Err("expected `]` after array dimension"@)
                            } else if tk(t, r2 + 1) == Some(STok::LBracket) {
                                Err(
                                    "multi-dimensional arrays are not supported (only one `[…]` after the name)"@,
                                )
                            } else {
                                Ok((Some((msb, lsb)), r2 + 1))
                            }
                        },
                    }
                }
            },
        }
    } else {
        Ok((None, p))
    }
}

/// The `= expr` initializer of a declared name `n`, at `q`.
pub open spec fn decl_init(t: Seq<STok>, n: Seq<char>, has_dim: bool, q: int) -> Result<
    (Option<SExpr>, int),
    Seq<char>,
> {
    if tk(t, q) == Some(STok::Assign) {
        if has_dim {
            Err("array variable `"@ + n + "` cannot have an init expression"@)
        } else {
            match pexpr(t, q + 1, 0) {
                Err(m) => Err(m),
                Ok((e, c)) => Ok((Some(e), q + 1 + c)),
            }
        }
    } else {
        Ok((None, q))
    }
}

/// The comma-separated names of a declaration from `p`, after `names`.
pub open spec fn decl_names(t: Seq<STok>, kind: DeclKind, p: int, names: Seq<SDeclName>) -> Result<
    (Seq<SDeclName>, nat),
    Seq<char>,
>
    decreases left(t, p),
{
    let kw = decl_keyword(kind);
    match tk(t, p) {
        Some(STok::Identifier(n)) => if is_reserved_name(n) {
            Err("`"@ + n + "` cannot be used as a "@ + kw + " name"@)
        } else if has_name(names, n) {
            Err("duplicate name in "@ + kw + " declaration: "@ + n)
        } else {
            match decl_dim(t, p + 1) {
                Err(m) => Err(m),
                Ok((dim, q)) => match decl_init(t, n, dim is Some, q) {
                    Err(m) => Err(m),
                    Ok((init, q2)) => {
                        let names2 = names.push(SDeclName { name: n, init, dim });
                        if tk(t, q2) == Some(STok::Comma) {
                            match decl_names(t, kind, q2 + 1, names2) {
                                Err(m) => Err(m),
                                Ok((ns, c)) => Ok((ns, (q2 + 1 + c - p) as nat)),
                            }
                        } else {
                            Ok((names2, (q2 - p) as nat))
                        }
                    },
                },
            }
        },
        _ => Err("expected identifier in "@ + kw + " declaration"@),
    }
}

/// A declaration after its keyword (at `p - 1`).
pub open spec fn decl(t: Seq<STok>, kind: DeclKind, p: int) -> Result<(SStmt, nat), Seq<char>> {
    let kw = decl_keyword(kind);
    let signed = tk(t, p) == Some(STok::Identifier("signed"@));
    let p1 = if signed {
        p + 1
    } else {
        p
    };
    if signed && kind != DeclKind::Reg {
        Err("`signed` qualifier is not allowed on "@ + kw + " declarations"@)
    } else if tk(t, p1) == Some(STok::LBracket) {
        if kind != DeclKind::Reg {
            Err("packed range `[..]` is not allowed on "@ + kw + " declarations"@)
        } else {
            match pexpr(t, p1 + 1, 0) {
                Err(m) => Err(m),
                Ok((msb, c1)) => {
                    let r = p1 + 1 + c1;
                    if tk(t, r) != Some(STok::Colon) {
                        Err("expected `:` in reg range"@)
                    } else {
                        match pexpr(t, r + 1, 0) {
                            Err(m) => Err(m),
                            Ok((lsb, c2)) => {
                                let r2 = r + 1 + c2;
                                if tk(t, r2) != Some(STok::RBracket) {
                                    Err("expected `]` after reg range"@)
                                } else {
                                    match decl_names(t, kind, r2 + 1, Seq::empty()) {
                                        Err(m) => Err(m),
                                        Ok((names, c3)) => Ok(
                                            (
                                                SStmt::Decl {
                                                    kind,
                                                    signed,
                                                    range: Some((msb, lsb)),
                                                    names,
                                                },
                                                (r2 + 1 + c3 - p) as nat,
                                            ),
                                        ),
                                    }
                                }
                            },
                        }
                    }
                },
            }
        }
    } else {
        match decl_names(t, kind, p1, Seq::empty()) {
            Err(m) => Err(m),
            Ok((names, c3)) => Ok(
                (SStmt::Decl { kind, signed, range: None, names }, (p1 + c3 - p) as nat),
            ),
        }
    }
}

/// The assignment target that an expression stands for.
pub open spec fn to_lvalue(e: SExpr) -> Result<SLValue, Seq<char>>
    decreases e,
{
    match e {
        SExpr::Grouped(i) => to_lvalue(*i),
        SExpr::Identifier(n) => Ok(SLValue::Name(n)),
        SExpr::Select { name, kind, inner } => Ok(SLValue::Select { name, kind, inner }),
        SExpr::Concatenation { items } => match to_lvalues(items) {
            Ok(ls) => Ok(SLValue::Concat(ls)),
            Err(m) => Err(m),
        },
        SExpr::Replication { .. } => Err("invalid lvalue: replication is not a variable_lvalue"@),
        _ => Err("invalid lvalue: expected name, bit/part-select, or concatenation"@),
    }
}

pub open spec fn to_lvalues(s: Seq<SExpr>) -> Result<Seq<SLValue>, Seq<char>>
    decreases s,
{
    if s.len() == 0 {
        Ok(Seq::empty())
    } else {
        match to_lvalues(s.drop_last()) {
            Err(m) => Err(m),
            Ok(r) => match to_lvalue(s.last()) {
                Ok(l) => Ok(r.push(l)),
                Err(m) => Err(m),
            },
        }
    }
}

/// One statement at the start of a segment, and the tokens it spans.
pub open spec fn stmt(t: Seq<STok>) -> Result<(SStmt, nat), Seq<char>> {
    match tk(t, 0) {
        Some(STok::Identifier(n)) if decl_kind_of(n) is Some => match decl(
            t,
            decl_kind_of(n)->Some_0,
            1,
        ) {
            Ok((s, c)) => Ok((s, c + 1)),
            Err(m) => Err(m),
        },
        Some(STok::Identifier(_)) | Some(STok::LBrace) => match pexpr(t, 0, 0) {
            Err(m) => Err(m),
            Ok((e, c)) => if tk(t, c as int) == Some(STok::Assign) {
                match to_lvalue(e) {
                    Err(m) => Err(m),
                    Ok(lv) => match pexpr(t, (c + 1) as int, 0) {
                        Err(m) => Err(m),
                        Ok((rhs, c2)) => Ok((SStmt::Assign { lvalue: lv, rhs }, c + 1 + c2)),
                    },
                }
            } else {
                Ok((SStmt::Expr(e), c))
            },
        },
        _ => match pexpr(t, 0, 0) {
            Err(m) => Err(m),
            Ok((e, c)) => Ok((SStmt::Expr(e), c)),
        },
    }
}

/// A whole segment as one statement.
#[verifier::opaque]
pub open spec fn segment_stmt(t: Seq<STok>) -> Result<SStmt, Seq<char>> {
    match stmt(t) {
        Err(m) => Err(m),
        Ok((s, c)) => if c < t.len() {
            Err("unexpected token after end of statement"@)
        } else {
            Ok(s)
        },
    }
}

/// Index of the first `;` at or after `j`, or the length.
pub open spec fn next_semi(t: Seq<STok>, j: int) -> int
    decreases t.len() - j,
{
    if j < 0 || j >= t.len() {
        t.len() as int
    } else if t[j] == STok::Semicolon {
        j
    } else {
        next_semi(t, j + 1)
    }
}

/// The non-empty `;`-separated segments of `t` from `j`.
pub open spec fn segments_from(t: Seq<STok>, j: int) -> Seq<Seq<STok>>
    decreases t.len() - j,
{
    if j < 0 || j >= t.len() {
        Seq::empty()
    } else {
        let k = next_semi(t, j);
        proof {
            lemma_next_semi(t, j);
        }
        let rest = if k < t.len() {
            segments_from(t, k + 1)
        } else {
            Seq::empty()
        };
        if k > j {
            seq![t.subrange(j, k)] + rest
        } else {
            rest
        }
    }
}

pub proof fn lemma_next_semi(t: Seq<STok>, j: int)
    requires
        0 <= j <= t.len(),
    ensures
        j <= next_semi(t, j) <= t.len(),
        next_semi(t, j) < t.len() ==> t[next_semi(t, j)] == STok::Semicolon,
        forall|k: int| j <= k < next_semi(t, j) ==> t[k] != STok::Semicolon,
    decreases t.len() - j,
{
    if j < t.len() && t[j] != STok::Semicolon {
        lemma_next_semi(t, j + 1);
    }
}

pub open spec fn segment_stmts(segs: Seq<Seq<STok>>) -> Result<Seq<SStmt>, Seq<char>>
    decreases segs.len(),
{
    if segs.len() == 0 {
        Ok(Seq::empty())
    } else {
        match segment_stmt(segs[0]) {
            Err(m) => Err(m),
            Ok(s) => match segment_stmts(segs.drop_first()) {
                Ok(r) => Ok(seq![s] + r),
                Err(m) => Err(m),
            },
        }
    }
}

/// The statements of `input` and whether its last token is `;`.
pub open spec fn spec_parse_statements(input: Seq<char>) -> Result<(Seq<SStmt>, bool), Seq<char>> {
    match spec_tokenize(input) {
        Err(m) => Err(m),
        Ok(toks) => match segment_stmts(segments_from(toks, 0)) {
            Err(m) => Err(m),
            Ok(stmts) => Ok((stmts, toks.len() > 0 && toks.last() == STok::Semicolon)),
        },
    }
}

// ----- executable parser -----
pub open spec fn tv(t: &[Token]) -> Seq<STok> {
    toks_view(t@)
}

pub open spec fn shift(r: Result<(SExpr, nat), Seq<char>>, d: int) -> Result<(SExpr, nat), Seq<char>> {
    match r {
        Ok((e, c)) => Ok((e, (c + d) as nat)),
        Err(m) => Err(m),
    }
}

/// `r` is what the model `s` says, for a parse that starts at `p`.
pub open spec fn expr_res(r: Result<(Expr, usize), String>, s: Result<(SExpr, nat), Seq<char>>, p: int, len: int) -> bool {
    match s {
        Ok((e, c)) => r matches Ok((x, k)) && view_expr(x) == e && k == c && p + k <= len,
        Err(m) => r matches Err(x) && x@ == m,
    }
}

#[derive(Clone, Copy, PartialEq, Eq, Structural)]
enum Punct {
    LParen,
    RParen,
    LBracket,
    RBracket,
    LBrace,
    RBrace,
    Comma,
    Colon,
    Question,
    Assign,
    PlusColon,
    MinusColon,
}

spec fn punct_tok(k: Punct) -> STok {
    match k {
        Punct::LParen => STok::LParen,
        Punct::RParen => STok::RParen,
        Punct::LBracket => STok::LBracket,
        Punct::RBracket => STok::RBracket,
        Punct::LBrace => STok::LBrace,
        Punct::RBrace => STok::RBrace,
        Punct::Comma => STok::Comma,
        Punct::Colon => STok::Colon,
        Punct::Question => STok::Question,
        Punct::Assign => STok::Assign,
        Punct::PlusColon => STok::PlusColon,
        Punct::MinusColon => STok::MinusColon,
    }
}

fn at_punct(t: &[Token], p: usize, k: Punct) -> (r: bool)
    ensures
        r == (tk(tv(t), p as int) == Some(punct_tok(k))),
        r ==> p < t@.len(),
{
    if p >= t.len() {
        return false;
    }
    match &t[p] {
        Token::LParen => k == Punct::LParen,
        Token::RParen => k == Punct::RParen,
        Token::LBracket => k == Punct::LBracket,
        Token::RBracket => k == Punct::RBracket,
        Token::LBrace => k == Punct::LBrace,
        Token::RBrace => k == Punct::RBrace,
        Token::Comma => k == Punct::Comma,
        Token::Colon => k == Punct::Colon,
        Token::Question => k == Punct::Question,
        Token::Assign => k == Punct::Assign,
        Token::PlusColon => k == Punct::PlusColon,
        Token::MinusColon => k == Punct::MinusColon,
        _ => false,
    }
}

/// Binding powers of the infix operator at `p`.
fn infix_binding_power(t: &[Token], p: usize) -> (r: Option<(BinaryOp, u8, u8)>)
    ensures
        r == infix(tk(tv(t), p as int)),
        r is Some ==> p < t@.len(),
{
    if p >= t.len() {
        return None;
    }
    match &t[p] {
        Token::LogicalOr => Some((BinaryOp::LogicalOr, 20, 21)),
        Token::LogicalAnd => Some((BinaryOp::LogicalAnd, 30, 31)),
        Token::BitwiseOr => Some((BinaryOp::BitwiseOr, 40, 41)),
        Token::BitwiseXor => Some((BinaryOp::BitwiseXor, 50, 51)),
        Token::BitwiseXnor => Some((BinaryOp::BitwiseXnor, 50, 51)),
        Token::BitwiseAnd => Some((BinaryOp::BitwiseAnd, 60, 61)),
        Token::EqualEqual => Some((BinaryOp::Equal, 70, 71)),
        Token::NotEqual => Some((BinaryOp::NotEqual, 70, 71)),
        Token::CaseEqual => Some((BinaryOp::CaseEqual, 70, 71)),
        Token::CaseNotEqual => Some((BinaryOp::CaseNotEqual, 70, 71)),
        Token::Less => Some((BinaryOp::LessThan, 80, 81)),
        Token::Greater => Some((BinaryOp::GreaterThan, 80, 81)),
        Token::LessEqual => Some((BinaryOp::LessThanOrEqual, 80, 81)),
        Token::GreaterEqual => Some((BinaryOp::GreaterThanOrEqual, 80, 81)),
        Token::LogicalShiftLeft => Some((BinaryOp::LogicalShiftLeft, 90, 91)),
        Token::LogicalShiftRight => Some((BinaryOp::LogicalShiftRight, 90, 91)),
        Token::ArithmeticShiftLeft => Some((BinaryOp::ArithmeticShiftLeft, 90, 91)),
        Token::ArithmeticShiftRight => Some((BinaryOp::ArithmeticShiftRight, 90, 91)),
        Token::Plus => Some((BinaryOp::Add, 100, 101)),
        Token::Minus => Some((BinaryOp::Subtract, 100, 101)),
        Token::Star => Some((BinaryOp::Multiply, 110, 111)),
        Token::Slash => Some((BinaryOp::Divide, 110, 111)),
        Token::Percent => Some((BinaryOp::Modulus, 110, 111)),
        Token::Power => Some((BinaryOp::Power, 120, 121)),
        _ => None,
    }
}

/// The prefix (unary) operator at `p`.
fn prefix_unary_op(t: &[Token], p: usize) -> (r: Option<UnaryOp>)
    ensures
        r == prefix_op(tk(tv(t), p as int)),
        r is Some ==> p < t@.len(),
{
    if p >= t.len() {
        return None;
    }
    match &t[p] {
        Token::Plus => Some(UnaryOp::Plus),
        Token::Minus => Some(UnaryOp::Minus),
        Token::Bang => Some(UnaryOp::LogicalNot),
        Token::Tilde => Some(UnaryOp::BitwiseNot),
        Token::BitwiseAnd => Some(UnaryOp::ReductionAnd),
        Token::BitwiseOr => Some(UnaryOp::ReductionOr),
        Token::BitwiseXor => Some(UnaryOp::ReductionXor),
        Token::BitwiseXnor => Some(UnaryOp::ReductionXnor),
        Token::BitwiseNand => Some(UnaryOp::ReductionNand),
        Token::BitwiseNor => Some(UnaryOp::ReductionNor),
        _ => None,
    }
}

fn prefix_ops(t: &[Token], p: usize) -> (r: Vec<UnaryOp>)
    requires
        p <= t@.len(),
    ensures
        r@ == prefix_run(tv(t), p as int),
        p + r@.len() <= t@.len(),
{
    let ghost len_bound = t.len();
    let mut ops: Vec<UnaryOp> = Vec::new();
    let mut q = p;
    loop
        invariant
            p <= q <= t@.len() <= usize::MAX,
            q == p + ops@.len(),
            prefix_run(tv(t), p as int) == ops@ + prefix_run(tv(t), q as int),
        decreases t@.len() - q,
    {
        match prefix_unary_op(t, q) {
            Some(op) => {
                let ghost before = ops@;
                ops.push(op);
                q = q + 1;
                assert(before + prefix_run(tv(t), q - 1) =~= ops@ + prefix_run(tv(t), q as int));
            },
            None => {
                assert(ops@ + prefix_run(tv(t), q as int) =~= ops@);
                return ops;
            },
        }
    }
}

/// Wraps `expr` in the prefix operators `ops`, the rightmost innermost.
fn apply_prefix_unary_ops(expr: Expr, ops: &Vec<UnaryOp>) -> (r: Expr)
    ensures
        view_expr(r) == wrap(ops@, view_expr(expr)),
{
    let ghost v0 = view_expr(expr);
    let mut e = expr;
    let mut k = ops.len();
    assert(ops@.take(k as int) =~= ops@);
    while k > 0
        invariant
            k <= ops@.len(),
            wrap(ops@, v0) == wrap(ops@.take(k as int), view_expr(e)),
        decreases k,
    {
        k = k - 1;
        assert(ops@.take(k + 1).drop_last() =~= ops@.take(k as int));
        e = Expr::Unary { op: ops[k], expr: Box::new(e) };
    }
    e
}

/// Characters of `a` equal those of `b`.
pub(crate) fn str_eq(a: &String, b: &str) -> (r: bool)
    ensures
        r == (a@ == b@),
{
    let x = crate::text::chars_of(a.as_str());
    let y = crate::text::chars_of(b);
    assert(x@ == a@);
    if x.len() != y.len() {
        assert(x@.len() != y@.len());
        return false;
    }
    let mut k: usize = 0;
    while k < x.len()
        invariant
            k <= x@.len() == y@.len(),
            x@ == a@,
            y@ == b@,
            forall|i: int| 0 <= i < k ==> x@[i] == y@[i],
        decreases x@.len() - k,
    {
        if x[k] != y[k] {
            assert(x@[k as int] != y@[k as int]);
            return false;
        }
        k = k + 1;
    }
    assert(x@ =~= y@);
    true
}

/// Names of the system tasks, which accept null arguments.
fn system_call_accepts_null_args(name: &String) -> (r: bool)
    ensures
        r == is_task_name(name@),
{
    str_eq(name, "$finish") || str_eq(name, "$stop") || str_eq(name, "$display") || str_eq(
        name,
        "$displayb",
    ) || str_eq(name, "$displayo") || str_eq(name, "$displayh") || str_eq(name, "$write")
        || str_eq(name, "$writeb") || str_eq(name, "$writeo") || str_eq(name, "$writeh")
}

fn parse_expr(t: &[Token], p: usize, min_bp: u8) -> (r: Result<(Expr, usize), String>)
    requires
        p <= t@.len(),
    ensures
        expr_res(r, pexpr(tv(t), p as int, min_bp), p as int, t@.len() as int),
    decreases t@.len() - p, 3int,
{
    let ghost len_bound = t.len();
    let (lhs, c) = match parse_operand(t, p) {
        Ok(x) => x,
        Err(m) => return Err(m),
    };
    match parse_led(t, lhs, p + c, min_bp) {
        Ok((e, c2)) => Ok((e, c + c2)),
        Err(m) => Err(m),
    }
}

fn parse_led(t: &[Token], lhs: Expr, p: usize, min_bp: u8) -> (r: Result<(Expr, usize), String>)
    requires
        p <= t@.len(),
    ensures
        expr_res(r, led(tv(t), view_expr(lhs), p as int, min_bp), p as int, t@.len() as int),
    decreases t@.len() - p, 1int,
{
    let ghost len_bound = t.len();
    let ghost v0 = view_expr(lhs);
    let mut cur = lhs;
    let mut q = p;
    loop
        invariant
            p <= q <= t@.len() <= usize::MAX,
            v0 == view_expr(lhs),
            led(tv(t), v0, p as int, min_bp) == shift(
                led(tv(t), view_expr(cur), q as int, min_bp),
                q - p,
            ),
        decreases t@.len() - q,
    {
        if at_punct(t, q, Punct::Question) && 10 >= min_bp {
            let (th, c1) = match parse_expr(t, q + 1, 0) {
                Ok(x) => x,
                Err(m) => return Err(m),
            };
            if !at_punct(t, q + 1 + c1, Punct::Colon) {
                return Err(owned("expected `:` in conditional expression"));
            }
            let (el, c2) = match parse_expr(t, q + 2 + c1, 9) {
                Ok(x) => x,
                Err(m) => return Err(m),
            };
            cur = Expr::Conditional {
                cond: Box::new(cur),
                then_expr: Box::new(th),
                else_expr: Box::new(el),
            };
            q = q + 2 + c1 + c2;
        } else {
            match infix_binding_power(t, q) {
                Some((op, lbp, rbp)) => {
                    if lbp >= min_bp {
                        let (rhs, c) = match parse_expr(t, q + 1, rbp) {
                            Ok(x) => x,
                            Err(m) => return Err(m),
                        };
                        cur = Expr::Binary { op, lhs: Box::new(cur), rhs: Box::new(rhs) };
                        q = q + 1 + c;
                    } else {
                        assert(led(tv(t), view_expr(cur), q as int, min_bp) == Ok::<(SExpr, nat), Seq<char>>((view_expr(cur), 0nat)));
                        return Ok((cur, q - p));
                    }
                },
                None => {
                    assert(led(tv(t), view_expr(cur), q as int, min_bp) == Ok::<(SExpr, nat), Seq<char>>((view_expr(cur), 0nat)));
                    return Ok((cur, q - p));
                },
            }
        }
    }
}

fn system_name_at(t: &[Token], q: usize) -> (r: Option<String>)
    ensures
        match tk(tv(t), q as int) {
            Some(STok::SystemIdentifier(n)) => r matches Some(x) && x@ == n,
            _ => r is None,
        },
        r is Some ==> q < t@.len(),
{
    if q >= t.len() {
        return None;
    }
    match &t[q] {
        Token::SystemIdentifier(n) => Some(n.clone()),
        _ => None,
    }
}

fn parse_operand(t: &[Token], p: usize) -> (r: Result<(Expr, usize), String>)
    requires
        p <= t@.len(),
    ensures
        expr_res(r, operand(tv(t), p as int), p as int, t@.len() as int),
    decreases t@.len() - p, 2int,
{
    let ghost len_bound = t.len();
    let ops = prefix_ops(t, p);
    let q = p + ops.len();
    if at_punct(t, q, Punct::LParen) {
        let (inner, c) = match parse_expr(t, q + 1, 0) {
            Ok(x) => x,
            Err(m) => return Err(m),
        };
        if at_punct(t, q + 1 + c, Punct::RParen) {
            return Ok((apply_prefix_unary_ops(Expr::Grouped(Box::new(inner)), &ops), q + 2 + c - p));
        }
        return Err(owned("missing closing parenthesis"));
    }
    if at_punct(t, q, Punct::LBrace) {
        let (e, c) = match parse_brace(t, q + 1, Vec::new()) {
            Ok(x) => x,
            Err(m) => return Err(m),
        };
        return Ok((apply_prefix_unary_ops(e, &ops), q + 1 + c - p));
    }
    match system_name_at(t, q) {
        Some(name) => {
            let (e, c) = match parse_syscall(t, name, q + 1) {
                Ok(x) => x,
                Err(m) => return Err(m),
            };
            Ok((apply_prefix_unary_ops(e, &ops), q + 1 + c - p))
        },
        None => {
            let (e, c) = match parse_primary(t, q) {
                Ok(x) => x,
                Err(m) => return Err(m),
            };
            Ok((apply_prefix_unary_ops(e, &ops), q + c - p))
        },
    }
}

fn parse_syscall(t: &[Token], name: String, p: usize) -> (r: Result<(Expr, usize), String>)
    requires
        p <= t@.len(),
    ensures
        expr_res(r, syscall(tv(t), name@, p as int), p as int, t@.len() as int),
    decreases t@.len() - p, 4int,
{
    let ghost len_bound = t.len();
    if !at_punct(t, p, Punct::LParen) {
        assert(view_args(Seq::<SystemArg>::empty()) =~= Seq::<SArg>::empty());
        return Ok((Expr::SystemCall { name, args: Vec::new() }, 0));
    }
    if at_punct(t, p + 1, Punct::RParen) {
        assert(view_args(Seq::<SystemArg>::empty()) =~= Seq::<SArg>::empty());
        return Ok((Expr::SystemCall { name, args: Vec::new() }, 2));
    }
    proof {
        assert(view_args(Seq::<SystemArg>::empty()) =~= Seq::<SArg>::empty());
    }
    let (args, c) = match parse_sysargs(t, &name, p + 1, Vec::new()) {
        Ok(x) => x,
        Err(m) => return Err(m),
    };
    Ok((Expr::SystemCall { name, args }, c + 1))
}

fn parse_brace(t: &[Token], p: usize, items: Vec<Expr>) -> (r: Result<(Expr, usize), String>)
    requires
        p <= t@.len(),
    ensures
        expr_res(r, brace(tv(t), p as int, view_exprs(items@)), p as int, t@.len() as int),
    decreases t@.len() - p, 4int,
{
    let ghost len_bound = t.len();
    let mut items = items;
    let ghost before = items@;
    let (v, c) = match parse_expr(t, p, 0) {
        Ok(x) => x,
        Err(m) => return Err(m),
    };
    let r = p + c;
    if at_punct(t, r, Punct::Comma) {
        items.push(v);
        assert(items@.drop_last() =~= before);
        let (e, c2) = match parse_brace(t, r + 1, items) {
            Ok(x) => x,
            Err(m) => return Err(m),
        };
        return Ok((e, r + 1 + c2 - p));
    }
    if at_punct(t, r, Punct::RBrace) {
        let ghost vv = view_expr(v);
        items.push(v);
        assert(items@.drop_last() =~= before);
        assert(view_exprs(items@) == view_exprs(before).push(vv));
        return Ok((Expr::Concatenation { items }, r + 1 - p));
    }
    if items.len() == 0 && at_punct(t, r, Punct::LBrace) {
        let (e, c2) = match parse_repl(t, r + 1, v, Vec::new()) {
            Ok(x) => x,
            Err(m) => return Err(m),
        };
        return Ok((e, r + 1 + c2 - p));
    }
    Err(owned("missing closing brace in concatenation"))
}

fn parse_repl(t: &[Token], p: usize, count: Expr, items: Vec<Expr>) -> (r: Result<(Expr, usize), String>)
    requires
        p <= t@.len(),
    ensures
        expr_res(
            r,
            repl(tv(t), p as int, view_expr(count), view_exprs(items@)),
            p as int,
            t@.len() as int,
        ),
    decreases t@.len() - p, 4int,
{
    let ghost len_bound = t.len();
    let mut items = items;
    let ghost before = items@;
    let (v, c) = match parse_expr(t, p, 0) {
        Ok(x) => x,
        Err(m) => return Err(m),
    };
    let r = p + c;
    if at_punct(t, r, Punct::Comma) {
        items.push(v);
        assert(items@.drop_last() =~= before);
        let (e, c2) = match parse_repl(t, r + 1, count, items) {
            Ok(x) => x,
            Err(m) => return Err(m),
        };
        return Ok((e, r + 1 + c2 - p));
    }
    if at_punct(t, r, Punct::RBrace) {
        if at_punct(t, r + 1, Punct::RBrace) {
            let ghost vv = view_expr(v);
            items.push(v);
            assert(items@.drop_last() =~= before);
            assert(view_exprs(items@) == view_exprs(before).push(vv));
            return Ok((Expr::Replication { count: Box::new(count), items }, r + 2 - p));
        }
        return Err(owned("missing closing brace in replication"));
    }
    Err(owned("missing closing brace in concatenation"))
}

pub open spec fn args_res(r: Result<(Vec<SystemArg>, usize), String>, s: Result<(Seq<SArg>, nat), Seq<char>>, p: int, len: int) -> bool {
    match s {
        Ok((a, c)) => r matches Ok((x, k)) && view_args(x@) == a && k == c && p + k <= len,
        Err(m) => r matches Err(x) && x@ == m,
    }
}

fn parse_sysargs(t: &[Token], name: &String, p: usize, args: Vec<SystemArg>) -> (r: Result<
    (Vec<SystemArg>, usize),
    String,
>)
    requires
        p <= t@.len(),
    ensures
        args_res(r, sysargs(tv(t), name@, p as int, view_args(args@)), p as int, t@.len() as int),
    decreases t@.len() - p, 4int,
{
    let ghost len_bound = t.len();
    let mut args = args;
    let ghost before = args@;
    let null_ok = system_call_accepts_null_args(name);
    if null_ok && at_punct(t, p, Punct::Comma) {
        args.push(SystemArg::Null);
        assert(args@.drop_last() =~= before);
        let (a, c) = match parse_sysargs(t, name, p + 1, args) {
            Ok(x) => x,
            Err(m) => return Err(m),
        };
        return Ok((a, c + 1));
    }
    if null_ok && at_punct(t, p, Punct::RParen) {
        args.push(SystemArg::Null);
        assert(args@.drop_last() =~= before);
        return Ok((args, 1));
    }
    let (v, c) = match parse_expr(t, p, 0) {
        Ok(x) => x,
        Err(m) => return Err(m),
    };
    let r = p + c;
    if at_punct(t, r, Punct::Comma) {
        args.push(SystemArg::Expr(v));
        assert(args@.drop_last() =~= before);
        let (a, c2) = match parse_sysargs(t, name, r + 1, args) {
            Ok(x) => x,
            Err(m) => return Err(m),
        };
        return Ok((a, r + 1 + c2 - p));
    }
    if at_punct(t, r, Punct::RParen) {
        args.push(SystemArg::Expr(v));
        assert(args@.drop_last() =~= before);
        return Ok((args, r + 1 - p));
    }
    let mut m = owned("expected `)` after ");
    append_str(&mut m, name.as_str());
    append_str(&mut m, " argument");
    Err(m)
}

fn copy_bytes(b: &Vec<u8>) -> (r: Vec<u8>)
    ensures
        r@ == b@,
{
    let mut r: Vec<u8> = Vec::new();
    let mut k: usize = 0;
    while k < b.len()
        invariant
            k <= b@.len(),
            r@ == b@.take(k as int),
        decreases b@.len() - k,
    {
        r.push(b[k]);
        k = k + 1;
        assert(r@ =~= b@.take(k as int));
    }
    assert(b@.take(k as int) =~= b@);
    r
}

fn parse_primary(t: &[Token], p: usize) -> (r: Result<(Expr, usize), String>)
    requires
        p <= t@.len(),
    ensures
        expr_res(r, primary(tv(t), p as int), p as int, t@.len() as int),
    decreases t@.len() - p, 1int,
{
    if p >= t.len() {
        return Err(owned("unexpected end of expression"));
    }
    match &t[p] {
        Token::IntegerLiteral(text) => match parse_integer(text) {
            Ok(l) => Ok((Expr::Literal(l), 1)),
            Err(m) => Err(m),
        },
        Token::StringLiteral(b) => Ok((Expr::StringLiteral(copy_bytes(b)), 1)),
        Token::RealLiteral(text) => Ok((Expr::RealLiteral(parse_real(text)), 1)),
        Token::Identifier(name) => {
            if at_punct(t, p + 1, Punct::LBracket) {
                let (e, c) = match parse_select_after_bracket(t, name, p + 2) {
                    Ok(x) => x,
                    Err(m) => return Err(m),
                };
                Ok((e, c + 2))
            } else {
                Ok((Expr::Identifier(name.clone()), 1))
            }
        },
        Token::RParen => Err(owned("unexpected closing parenthesis")),
        _ => Err(owned("expected expression operand")),
    }
}

fn parse_select_after_bracket(t: &[Token], name: &String, p: usize) -> (r: Result<(Expr, usize), String>)
    requires
        p <= t@.len(),
    ensures
        expr_res(r, select_after(tv(t), name@, p as int), p as int, t@.len() as int),
    decreases t@.len() - p, 5int,
{
    let ghost len_bound = t.len();
    let (k, c) = match parse_select_kind(t, p) {
        Ok(x) => x,
        Err(m) => return Err(m),
    };
    let r = p + c;
    if at_punct(t, r, Punct::LBracket) {
        let (k2, c2) = match parse_select_kind(t, r + 1) {
            Ok(x) => x,
            Err(m) => return Err(m),
        };
        if at_punct(t, r + 1 + c2, Punct::LBracket) {
            return Err(owned("chained selects beyond one inner bracket are not supported"));
        }
        return Ok(
            (Expr::Select { name: name.clone(), kind: k, inner: Some(Box::new(k2)) }, r + 1 + c2 - p),
        );
    }
    Ok((Expr::Select { name: name.clone(), kind: k, inner: None }, c))
}

pub open spec fn select_res(r: Result<(SelectKind, usize), String>, s: Result<(SSelect, nat), Seq<char>>, p: int, len: int) -> bool {
    match s {
        Ok((k, c)) => r matches Ok((x, n)) && view_select(x) == k && n == c && p + n <= len,
        Err(m) => r matches Err(x) && x@ == m,
    }
}

fn parse_bracketed(t: &[Token], p: usize, msg: &str) -> (r: Result<(Expr, usize), String>)
    requires
        p <= t@.len(),
    ensures
        expr_res(r, bracketed(tv(t), p as int, msg@), p as int, t@.len() as int),
    decreases t@.len() - p, 4int,
{
    let ghost len_bound = t.len();
    let (e, c) = match parse_expr(t, p, 0) {
        Ok(x) => x,
        Err(m) => return Err(m),
    };
    if at_punct(t, p + c, Punct::RBracket) {
        Ok((e, c + 1))
    } else {
        Err(owned(msg))
    }
}

#[verifier::rlimit(40)]
fn parse_select_kind(t: &[Token], p: usize) -> (r: Result<(SelectKind, usize), String>)
    requires
        p <= t@.len(),
    ensures
        select_res(r, select_kind(tv(t), p as int), p as int, t@.len() as int),
    decreases t@.len() - p, 4int,
{
    let ghost len_bound = t.len();
    let (first, c) = match parse_expr(t, p, 0) {
        Ok(x) => x,
        Err(m) => return Err(m),
    };
    let r = p + c;
    if at_punct(t, r, Punct::RBracket) {
        return Ok((SelectKind::Bit { index: Box::new(first) }, r + 1 - p));
    }
    if at_punct(t, r, Punct::Colon) {
        let (lsb, c2) = match parse_bracketed(t, r + 1, "expected `]` after part-select range") {
            Ok(x) => x,
            Err(m) => return Err(m),
        };
        return Ok((SelectKind::PartConst { msb: Box::new(first), lsb: Box::new(lsb) }, r + 1 + c2 - p));
    }
    if at_punct(t, r, Punct::PlusColon) {
        let (w, c2) = match parse_bracketed(t, r + 1, "expected `]` after indexed part-select width") {
            Ok(x) => x,
            Err(m) => return Err(m),
        };
        return Ok(
            (SelectKind::PartIndexedUp { base: Box::new(first), width: Box::new(w) }, r + 1 + c2 - p),
        );
    }
    if at_punct(t, r, Punct::MinusColon) {
        let (w, c2) = match parse_bracketed(t, r + 1, "expected `]` after indexed part-select width") {
            Ok(x) => x,
            Err(m) => return Err(m),
        };
        return Ok(
            (SelectKind::PartIndexedDown { base: Box::new(first), width: Box::new(w) }, r + 1 + c2 - p),
        );
    }
    Err(owned("expected `]`, `:`, `+:`, or `-:` in select"))
}

// ----- statements -----
pub open spec fn lv_res(r: Result<LValue, String>, s: Result<SLValue, Seq<char>>) -> bool {
    match s {
        Ok(l) => r matches Ok(x) && view_lvalue(x) == l,
        Err(m) => r matches Err(x) && x@ == m,
    }
}

pub proof fn lemma_view_exprs(s: Seq<Expr>)
    ensures
        view_exprs(s).len() == s.len(),
        forall|i: int| 0 <= i < s.len() ==> #[trigger] view_exprs(s)[i] == view_expr(s[i]),
    decreases s.len(),
{
    if s.len() > 0 {
        lemma_view_exprs(s.drop_last());
    }
}

proof fn lemma_to_lvalues_err(s: Seq<SExpr>, j: int)
    requires
        0 <= j <= s.len(),
        to_lvalues(s.take(j)) is Err,
    ensures
        to_lvalues(s) == to_lvalues(s.take(j)),
    decreases s.len() - j,
{
    if j < s.len() {
        assert(s.take(j + 1).drop_last() =~= s.take(j));
        lemma_to_lvalues_err(s, j + 1);
    } else {
        assert(s.take(j) =~= s);
    }
}

/// `v` in reverse order.
pub(crate) fn reversed<T>(v: Vec<T>) -> (r: Vec<T>)
    ensures
        r@.len() == v@.len(),
        forall|i: int| 0 <= i < v@.len() ==> #[trigger] r@[i] == v@[v@.len() - 1 - i],
{
    let ghost orig = v@;
    let mut v = v;
    let mut r: Vec<T> = Vec::new();
    while v.len() > 0
        invariant
            r@.len() + v@.len() == orig.len(),
            v@ == orig.take(v@.len() as int),
            forall|i: int| 0 <= i < r@.len() ==> #[trigger] r@[i] == orig[orig.len() - 1 - i],
        decreases v@.len(),
    {
        let ghost n = v@.len();
        let x = v.pop().unwrap();
        assert(x == orig[n - 1]);
        r.push(x);
        assert(v@ =~= orig.take(v@.len() as int));
    }
    r
}

/// The assignment target written as the expression `e`: a name, a select,
/// or a (nested) concatenation of those, under any parentheses.
pub fn expression_to_lvalue(e: Expr) -> (r: Result<LValue, String>)
    ensures
        lv_res(r, to_lvalue(view_expr(e))),
    decreases e,
{
    let ghost ge = e;
    match e {
        Expr::Grouped(i) => expression_to_lvalue(*i),
        Expr::Identifier(n) => Ok(LValue::Name(n)),
        Expr::Select { name, kind, inner } => Ok(LValue::Select { name, kind, inner }),
        Expr::Concatenation { items } => {
            let ghost orig = items@;
            let ghost vs = view_exprs(orig);
            proof {
                lemma_view_exprs(orig);
            }
            let n = items.len();
            let mut rest = reversed(items);
            let mut out: Vec<LValue> = Vec::new();
            let mut k: usize = 0;
            assert(vs.take(0) =~= Seq::<SExpr>::empty());
            assert(view_lvalues(out@) =~= Seq::<SLValue>::empty());
            while k < n
                invariant
                    k <= n == orig.len(),
                    ge == e,
                    ge == (Expr::Concatenation { items: items }),
                    orig == items@,
                    vs == view_exprs(orig),
                    vs.len() == orig.len(),
                    forall|i: int| 0 <= i < orig.len() ==> #[trigger] vs[i] == view_expr(orig[i]),
                    rest@.len() == n - k,
                    forall|i: int| 0 <= i < n - k ==> #[trigger] rest@[i] == orig[n - 1 - i],
                    to_lvalues(vs.take(k as int)) == Ok::<Seq<SLValue>, Seq<char>>(
                        view_lvalues(out@),
                    ),
                decreases n - k,
            {
                let item = rest.pop().unwrap();
                assert(item == orig[k as int]);
                proof {
                    let gi = ge->Concatenation_items;
                    assert(gi == items);
                    assert(decreases_to!(ge => gi));
                    assert(decreases_to!(gi => gi@));
                    assert(decreases_to!(gi@ => gi@[k as int]));
                    assert(decreases_to!(e => item));
                }
                assert(vs.take(k + 1).drop_last() =~= vs.take(k as int));
                match expression_to_lvalue(item) {
                    Ok(l) => {
                        let ghost before = out@;
                        out.push(l);
                        assert(out@.drop_last() =~= before);
                    },
                    Err(m) => {
                        proof {
                            lemma_to_lvalues_err(vs, k + 1);
                        }
                        return Err(m);
                    },
                }
                k = k + 1;
            }
            assert(vs.take(n as int) =~= vs);
            Ok(LValue::Concat(out))
        },
        Expr::Replication { .. } => Err(
            owned("invalid lvalue: replication is not a variable_lvalue"),
        ),
        _ => Err(owned("invalid lvalue: expected name, bit/part-select, or concatenation")),
    }
}

fn ident_at(t: &[Token], q: usize) -> (r: Option<String>)
    ensures
        match tk(tv(t), q as int) {
            Some(STok::Identifier(n)) => r matches Some(x) && x@ == n,
            _ => r is None,
        },
        r is Some ==> q < t@.len(),
{
    if q >= t.len() {
        return None;
    }
    match &t[q] {
        Token::Identifier(n) => Some(n.clone()),
        _ => None,
    }
}

fn decl_kind_at(t: &[Token], q: usize) -> (r: Option<DeclKind>)
    ensures
        match tk(tv(t), q as int) {
            Some(STok::Identifier(n)) => r == decl_kind_of(n),
            _ => r is None,
        },
        r is Some ==> q < t@.len(),
{
    if q >= t.len() {
        return None;
    }
    match &t[q] {
        Token::Identifier(n) => if str_eq(n, "reg") {
            Some(DeclKind::Reg)
        } else if str_eq(n, "integer") {
            Some(DeclKind::Integer)
        } else if str_eq(n, "real") {
            Some(DeclKind::Real)
        } else {
            None
        },
        _ => None,
    }
}

fn is_reserved(n: &String) -> (r: bool)
    ensures
        r == is_reserved_name(n@),
{
    str_eq(n, "reg") || str_eq(n, "integer") || str_eq(n, "real") || str_eq(n, "signed")
}

fn names_contain(names: &Vec<DeclName>, n: &String) -> (r: bool)
    ensures
        r == has_name(view_decl_names(names@), n@),
{
    let mut i: usize = 0;
    while i < names.len()
        invariant
            i <= names@.len(),
            forall|j: int| 0 <= j < i ==> names@[j].name@ != n@,
        decreases names@.len() - i,
    {
        if str_eq(&names[i].name, n.as_str()) {
            assert(view_decl_names(names@)[i as int].name == n@);
            return true;
        }
        i = i + 1;
    }
    assert forall|j: int| 0 <= j < view_decl_names(names@).len() implies #[trigger] view_decl_names(
        names@,
    )[j].name != n@ by {
        assert(view_decl_names(names@)[j] == view_decl_name(names@[j]));
    }
    false
}

pub open spec fn dim_res(r: Result<(Option<(Expr, Expr)>, usize), String>, s: Result<(Option<(SExpr, SExpr)>, int), Seq<char>>, len: int) -> bool {
    match s {
        Ok((d, q)) => r matches Ok((x, k)) && view_opt_pair(x) == d && k == q && k <= len,
        Err(m) => r matches Err(x) && x@ == m,
    }
}

fn parse_decl_dim(t: &[Token], p: usize) -> (r: Result<(Option<(Expr, Expr)>, usize), String>)
    requires
        p <= t@.len(),
    ensures
        dim_res(r, decl_dim(tv(t), p as int), t@.len() as int),
{
    let ghost len_bound = t.len();
    if !at_punct(t, p, Punct::LBracket) {
        return Ok((None, p));
    }
    let (msb, c1) = match parse_expr(t, p + 1, 0) {
        Ok(x) => x,
        Err(m) => return Err(m),
    };
    let r = p + 1 + c1;
    if !at_punct(t, r, Punct::Colon) {
        return Err(owned("expected `:` in array dimension"));
    }
    let (lsb, c2) = match parse_expr(t, r + 1, 0) {
        Ok(x) => x,
        Err(m) => return Err(m),
    };
    let r2 = r + 1 + c2;
    if !at_punct(t, r2, Punct::RBracket) {
        return Err(owned("expected `]` after array dimension"));
    }
    if at_punct(t, r2 + 1, Punct::LBracket) {
        return Err(
            owned("multi-dimensional arrays are not supported (only one `[…]` after the name)"),
        );
    }
    Ok((Some((msb, lsb)), r2 + 1))
}

pub open spec fn init_res(r: Result<(Option<Expr>, usize), String>, s: Result<(Option<SExpr>, int), Seq<char>>, len: int) -> bool {
    match s {
        Ok((d, q)) => r matches Ok((x, k)) && view_opt_expr(x) == d && k == q && k <= len,
        Err(m) => r matches Err(x) && x@ == m,
    }
}

fn parse_decl_init(t: &[Token], n: &String, has_dim: bool, q: usize) -> (r: Result<(Option<Expr>, usize), String>)
    requires
        q <= t@.len(),
    ensures
        init_res(r, decl_init(tv(t), n@, has_dim, q as int), t@.len() as int),
{
    let ghost len_bound = t.len();
    if !at_punct(t, q, Punct::Assign) {
        return Ok((None, q));
    }
    if has_dim {
        let mut m = owned("array variable `");
        append_str(&mut m, n.as_str());
        append_str(&mut m, "` cannot have an init expression");
        return Err(m);
    }
    let (e, c) = match parse_expr(t, q + 1, 0) {
        Ok(x) => x,
        Err(m) => return Err(m),
    };
    Ok((Some(e), q + 1 + c))
}

pub open spec fn names_res(r: Result<(Vec<DeclName>, usize), String>, s: Result<(Seq<SDeclName>, nat), Seq<char>>, p: int, len: int) -> bool {
    match s {
        Ok((ns, c)) => r matches Ok((x, k)) && view_decl_names(x@) == ns && k == c && p + k <= len,
        Err(m) => r matches Err(x) && x@ == m,
    }
}

fn parse_decl_names(t: &[Token], kind: DeclKind, p: usize, names: Vec<DeclName>) -> (r: Result<
    (Vec<DeclName>, usize),
    String,
>)
    requires
        p <= t@.len(),
    ensures
        names_res(
            r,
            decl_names(tv(t), kind, p as int, view_decl_names(names@)),
            p as int,
            t@.len() as int,
        ),
    decreases t@.len() - p,
{
    let ghost len_bound = t.len();
    let kw = kind.keyword();
    let n = match ident_at(t, p) {
        Some(n) => n,
        None => {
            let mut m = owned("expected identifier in ");
            append_str(&mut m, kw);
            append_str(&mut m, " declaration");
            return Err(m);
        },
    };
    if is_reserved(&n) {
        let mut m = owned("`");
        append_str(&mut m, n.as_str());
        append_str(&mut m, "` cannot be used as a ");
        append_str(&mut m, kw);
        append_str(&mut m, " name");
        return Err(m);
    }
    if names_contain(&names, &n) {
        let mut m = owned("duplicate name in ");
        append_str(&mut m, kw);
        append_str(&mut m, " declaration: ");
        append_str(&mut m, n.as_str());
        return Err(m);
    }
    let (dim, q) = match parse_decl_dim(t, p + 1) {
        Ok(x) => x,
        Err(m) => return Err(m),
    };
    let (init, q2) = match parse_decl_init(t, &n, dim.is_some(), q) {
        Ok(x) => x,
        Err(m) => return Err(m),
    };
    let ghost before = names@;
    let mut names = names;
    let d = DeclName { name: n, init, dim };
    names.push(d);
    assert(view_decl_names(names@) =~= view_decl_names(before).push(view_decl_name(d)));
    if at_punct(t, q2, Punct::Comma) {
        let (ns, c) = match parse_decl_names(t, kind, q2 + 1, names) {
            Ok(x) => x,
            Err(m) => return Err(m),
        };
        return Ok((ns, q2 + 1 + c - p));
    }
    Ok((names, q2 - p))
}

pub open spec fn stmt_res(r: Result<(Stmt, usize), String>, s: Result<(SStmt, nat), Seq<char>>, p: int, len: int) -> bool {
    match s {
        Ok((x, c)) => r matches Ok((y, k)) && view_stmt(y) == x && k == c && p + k <= len,
        Err(m) => r matches Err(y) && y@ == m,
    }
}

fn ident_is(t: &[Token], q: usize, w: &str) -> (r: bool)
    ensures
        r == (tk(tv(t), q as int) == Some(STok::Identifier(w@))),
{
    if q >= t.len() {
        return false;
    }
    match &t[q] {
        Token::Identifier(n) => str_eq(n, w),
        _ => false,
    }
}

/// A declaration after its keyword.
fn parse_decl(t: &[Token], kind: DeclKind, p: usize) -> (r: Result<(Stmt, usize), String>)
    requires
        p <= t@.len(),
    ensures
        stmt_res(r, decl(tv(t), kind, p as int), p as int, t@.len() as int),
{
    let ghost len_bound = t.len();
    let kw = kind.keyword();
    let signed = ident_is(t, p, "signed");
    let p1 = if signed {
        p + 1
    } else {
        p
    };
    if signed && kind != DeclKind::Reg {
        let mut m = owned("`signed` qualifier is not allowed on ");
        append_str(&mut m, kw);
        append_str(&mut m, " declarations");
        return Err(m);
    }
    proof {
        assert(view_decl_names(Seq::<DeclName>::empty()) =~= Seq::<SDeclName>::empty());
    }
    if at_punct(t, p1, Punct::LBracket) {
        if kind != DeclKind::Reg {
            let mut m = owned("packed range `[..]` is not allowed on ");
            append_str(&mut m, kw);
            append_str(&mut m, " declarations");
            return Err(m);
        }
        let (msb, c1) = match parse_expr(t, p1 + 1, 0) {
            Ok(x) => x,
            Err(m) => return Err(m),
        };
        let r = p1 + 1 + c1;
        if !at_punct(t, r, Punct::Colon) {
            return Err(owned("expected `:` in reg range"));
        }
        let (lsb, c2) = match parse_expr(t, r + 1, 0) {
            Ok(x) => x,
            Err(m) => return Err(m),
        };
        let r2 = r + 1 + c2;
        if !at_punct(t, r2, Punct::RBracket) {
            return Err(owned("expected `]` after reg range"));
        }
        let (names, c3) = match parse_decl_names(t, kind, r2 + 1, Vec::new()) {
            Ok(x) => x,
            Err(m) => return Err(m),
        };
        return Ok((Stmt::Decl { kind, signed, range: Some((msb, lsb)), names }, r2 + 1 + c3 - p));
    }
    let (names, c3) = match parse_decl_names(t, kind, p1, Vec::new()) {
        Ok(x) => x,
        Err(m) => return Err(m),
    };
    Ok((Stmt::Decl { kind, signed, range: None, names }, p1 + c3 - p))
}

fn ident_or_brace_at(t: &[Token], q: usize) -> (r: bool)
    ensures
        r == (tk(tv(t), q as int) matches Some(STok::Identifier(_)) || tk(tv(t), q as int) == Some(
            STok::LBrace,
        )),
{
    if q >= t.len() {
        return false;
    }
    match &t[q] {
        Token::Identifier(_) => true,
        Token::LBrace => true,
        _ => false,
    }
}

/// One statement at the start of the tokens `t`, and how many tokens it spans.
fn parse_statement(t: &[Token]) -> (r: Result<(Stmt, usize), String>)
    ensures
        stmt_res(r, stmt(tv(t)), 0, t@.len() as int),
{
    let ghost len_bound = t.len();
    match decl_kind_at(t, 0) {
        Some(kind) => {
            let (s, c) = match parse_decl(t, kind, 1) {
                Ok(x) => x,
                Err(m) => return Err(m),
            };
            return Ok((s, c + 1));
        },
        None => {},
    }
    if ident_or_brace_at(t, 0) {
        let (e, c) = match parse_expr(t, 0, 0) {
            Ok(x) => x,
            Err(m) => return Err(m),
        };
        if at_punct(t, c, Punct::Assign) {
            let lv = match expression_to_lvalue(e) {
                Ok(x) => x,
                Err(m) => return Err(m),
            };
            let (rhs, c2) = match parse_expr(t, c + 1, 0) {
                Ok(x) => x,
                Err(m) => return Err(m),
            };
            return Ok((Stmt::Assign { lvalue: lv, rhs }, c + 1 + c2));
        }
        return Ok((Stmt::Expr(e), c));
    }
    let (e, c) = match parse_expr(t, 0, 0) {
        Ok(x) => x,
        Err(m) => return Err(m),
    };
    Ok((Stmt::Expr(e), c))
}

/// `done` followed by what `rest` parses to.
pub open spec fn then_stmts(done: Seq<SStmt>, rest: Result<Seq<SStmt>, Seq<char>>) -> Result<
    Seq<SStmt>,
    Seq<char>,
> {
    match rest {
        Ok(r) => Ok(done + r),
        Err(m) => Err(m),
    }
}

/// The segments after the `;` at `k` (none when `k` is the end).
pub open spec fn segments_after(t: Seq<STok>, k: int) -> Seq<Seq<STok>> {
    if k < t.len() {
        segments_from(t, k + 1)
    } else {
        Seq::empty()
    }
}

proof fn lemma_segments_step(t: Seq<STok>, j: int)
    requires
        0 <= j < t.len(),
    ensures
        next_semi(t, j) == j ==> segments_from(t, j) == segments_after(t, j),
        next_semi(t, j) > j ==> segment_stmts(segments_from(t, j)) == match segment_stmt(
            t.subrange(j, next_semi(t, j)),
        ) {
            Err(m) => Err(m),
            Ok(s) => then_stmts(seq![s], segment_stmts(segments_after(t, next_semi(t, j)))),
        },
{
    lemma_next_semi(t, j);
    let k = next_semi(t, j);
    let segs = segments_from(t, j);
    if k > j {
        assert(segs == seq![t.subrange(j, k)] + segments_after(t, k));
        assert(segs[0] == t.subrange(j, k));
        assert(segs.drop_first() =~= segments_after(t, k));
    }
}

proof fn lemma_then_stmts_push(a: Seq<SStmt>, s: SStmt, r: Result<Seq<SStmt>, Seq<char>>)
    ensures
        then_stmts(a, then_stmts(seq![s], r)) == then_stmts(a.push(s), r),
{
    match r {
        Ok(x) => {
            assert(a + (seq![s] + x) =~= a.push(s) + x);
        },
        Err(_) => {},
    }
}

proof fn lemma_view_stmts_push(s: Seq<Stmt>, x: Stmt)
    ensures
        view_stmts(s.push(x)) == view_stmts(s).push(view_stmt(x)),
{
    assert(view_stmts(s.push(x)) =~= view_stmts(s).push(view_stmt(x)));
}

/// Index of the first `;` at or after `j`, or the length.
fn next_semicolon(t: &Vec<Token>, j: usize) -> (k: usize)
    requires
        j <= t@.len(),
    ensures
        k == next_semi(toks_view(t@), j as int),
{
    let ghost tt = toks_view(t@);
    let mut k = j;
    while k < t.len()
        invariant
            j <= k <= t@.len(),
            tt == toks_view(t@),
            next_semi(tt, j as int) == next_semi(tt, k as int),
        decreases t@.len() - k,
    {
        match &t[k] {
            Token::Semicolon => {
                return k;
            },
            _ => {},
        }
        k = k + 1;
    }
    k
}

/// A whole `;`-free segment as one statement.
fn parse_segment(seg: &[Token]) -> (r: Result<Stmt, String>)
    ensures
        match segment_stmt(tv(seg)) {
            Ok(s) => r matches Ok(x) && view_stmt(x) == s,
            Err(m) => r matches Err(x) && x@ == m,
        },
{
    reveal(segment_stmt);
    let (s, c) = match parse_statement(seg) {
        Ok(x) => x,
        Err(m) => return Err(m),
    };
    if c < seg.len() {
        return Err(owned("unexpected token after end of statement"));
    }
    Ok(s)
}

/// The statements of `input`, split at `;`, and whether its last token is
/// a `;` (a trailing semicolon suppresses output in the REPL).
pub fn parse_statements(input: &str) -> (r: Result<(Vec<Stmt>, bool), String>)
    ensures
        match spec_parse_statements(input@) {
            Ok((ss, b)) => r matches Ok((v, x)) && view_stmts(v@) == ss && x == b,
            Err(m) => r matches Err(x) && x@ == m,
        },
{
    let toks = match tokenize(input) {
        Ok(v) => v,
        Err(m) => return Err(m),
    };
    let ghost tt = toks_view(toks@);
    let n = toks.len();
    let trailing = n > 0 && match &toks[n - 1] {
        Token::Semicolon => true,
        _ => false,
    };
    let mut stmts: Vec<Stmt> = Vec::new();
    let mut j: usize = 0;
    assert(view_stmts(stmts@) =~= Seq::<SStmt>::empty());
    assert(then_stmts(Seq::empty(), segment_stmts(segments_from(tt, 0))) =~= segment_stmts(
        segments_from(tt, 0),
    ));
    while j < n
        invariant
            j <= n == toks@.len(),
            tt == toks_view(toks@),
            spec_tokenize(input@) == Ok::<Seq<STok>, Seq<char>>(tt),
            tt.len() == n,
            segment_stmts(segments_from(tt, 0)) == then_stmts(
                view_stmts(stmts@),
                segment_stmts(segments_from(tt, j as int)),
            ),
        decreases n - j,
    {
        let k = next_semicolon(&toks, j);
        proof {
            lemma_next_semi(tt, j as int);
            lemma_segments_step(tt, j as int);
        }
        if k > j {
            let seg = slice_subrange(toks.as_slice(), j, k);
            assert(tv(seg) =~= tt.subrange(j as int, k as int));
            let s = match parse_segment(seg) {
                Ok(x) => x,
                Err(m) => return Err(m),
            };
            let ghost before = stmts@;
            stmts.push(s);
            proof {
                lemma_view_stmts_push(before, s);
                lemma_then_stmts_push(
                    view_stmts(before),
                    view_stmt(s),
                    segment_stmts(segments_after(tt, k as int)),
                );
            }
        }
        if k < n {
            j = k + 1;
        } else {
            assert(segments_from(tt, n as int) =~= Seq::<Seq<STok>>::empty());
            j = n;
        }
    }
    proof {
        assert(segments_from(tt, j as int) =~= Seq::<Seq<STok>>::empty());
        assert(view_stmts(stmts@) + Seq::<SStmt>::empty() =~= view_stmts(stmts@));
    }
    Ok((stmts, trailing))
}

// ----- laws of the expression grammar -----
/// `x o1 y o2 z` for identifiers `x`, `y`, `z` and binary operator tokens
/// `o1`, `o2`.
pub open spec fn two_op_tokens(x: Seq<char>, o1: STok, y: Seq<char>, o2: STok, z: Seq<char>) -> Seq<STok> {
    seq![STok::Identifier(x), o1, STok::Identifier(y), o2, STok::Identifier(z)]
}

pub open spec fn ident(n: Seq<char>) -> SExpr {
    SExpr::Identifier(n)
}

pub open spec fn bin(op: BinaryOp, l: SExpr, r: SExpr) -> SExpr {
    SExpr::Binary { op, lhs: Box::new(l), rhs: Box::new(r) }
}

/// Binary operators group by the binding-power table (LRM Table 5-4): a right
/// operator that binds tighter than the left one takes `y` as its left
/// operand; otherwise the two group to the left, so operators of equal
/// precedence (`**` included) are left-associative.
#[verifier::rlimit(50)]
pub proof fn lemma_binary_precedence(x: Seq<char>, o1: STok, y: Seq<char>, o2: STok, z: Seq<char>)
    requires
        infix(Some(o1)) is Some,
        infix(Some(o2)) is Some,
    ensures
        ({
            let (op1, l1, _) = infix(Some(o1))->Some_0;
            let (op2, l2, _) = infix(Some(o2))->Some_0;
            pexpr(two_op_tokens(x, o1, y, o2, z), 0, 0) == Ok::<(SExpr, nat), Seq<char>>(
                (
                    if l2 > l1 {
                        bin(op1, ident(x), bin(op2, ident(y), ident(z)))
                    } else {
                        bin(op2, bin(op1, ident(x), ident(y)), ident(z))
                    },
                    5,
                ),
            )
        }),
{
    let t = two_op_tokens(x, o1, y, o2, z);
    let (op1, l1, r1) = infix(Some(o1))->Some_0;
    let (op2, l2, r2) = infix(Some(o2))->Some_0;
    assert(tk(t, 0) == Some(STok::Identifier(x)));
    assert(tk(t, 1) == Some(o1));
    assert(tk(t, 2) == Some(STok::Identifier(y)));
    assert(tk(t, 3) == Some(o2));
    assert(tk(t, 4) == Some(STok::Identifier(z)));
    assert(tk(t, 5) == None::<STok>);
    // the three operands
    assert(prefix_run(t, 0) =~= Seq::<UnaryOp>::empty());
    assert(prefix_run(t, 2) =~= Seq::<UnaryOp>::empty());
    assert(prefix_run(t, 4) =~= Seq::<UnaryOp>::empty());
    assert(wrap(Seq::<UnaryOp>::empty(), ident(x)) == ident(x));
    assert(wrap(Seq::<UnaryOp>::empty(), ident(y)) == ident(y));
    assert(wrap(Seq::<UnaryOp>::empty(), ident(z)) == ident(z));
    assert(primary(t, 0) == Ok::<(SExpr, nat), Seq<char>>((ident(x), 1)));
    assert(primary(t, 2) == Ok::<(SExpr, nat), Seq<char>>((ident(y), 1)));
    assert(primary(t, 4) == Ok::<(SExpr, nat), Seq<char>>((ident(z), 1)));
    assert(operand(t, 0) == Ok::<(SExpr, nat), Seq<char>>((ident(x), 1)));
    assert(operand(t, 2) == Ok::<(SExpr, nat), Seq<char>>((ident(y), 1)));
    assert(operand(t, 4) == Ok::<(SExpr, nat), Seq<char>>((ident(z), 1)));
    // every binding power is the left one plus one
    assert(r1 == l1 + 1 && r2 == l2 + 1);
    // the end of input closes every expression
    assert(led(t, ident(z), 5, r1) == Ok::<(SExpr, nat), Seq<char>>((ident(z), 0)));
    assert(led(t, ident(z), 5, r2) == Ok::<(SExpr, nat), Seq<char>>((ident(z), 0)));
    assert(pexpr(t, 4, r2) == Ok::<(SExpr, nat), Seq<char>>((ident(z), 1)));
    assert(pexpr(t, 4, r1) == Ok::<(SExpr, nat), Seq<char>>((ident(z), 1)));
    if l2 > l1 {
        let yz = bin(op2, ident(y), ident(z));
        assert(led(t, yz, 5, r1) == Ok::<(SExpr, nat), Seq<char>>((yz, 0)));
        assert(led(t, bin(op1, ident(x), yz), 5, 0) == Ok::<(SExpr, nat), Seq<char>>(
            (bin(op1, ident(x), yz), 0),
        ));
        assert(led(t, ident(y), 3, r1) == Ok::<(SExpr, nat), Seq<char>>((yz, 2)));
        assert(pexpr(t, 2, r1) == Ok::<(SExpr, nat), Seq<char>>((yz, 3)));
        let all = bin(op1, ident(x), yz);
        assert(led(t, ident(x), 1, 0) == Ok::<(SExpr, nat), Seq<char>>((all, 4)));
    } else {
        assert(led(t, ident(y), 3, r1) == Ok::<(SExpr, nat), Seq<char>>((ident(y), 0)));
        assert(pexpr(t, 2, r1) == Ok::<(SExpr, nat), Seq<char>>((ident(y), 1)));
        let xy = bin(op1, ident(x), ident(y));
        let all = bin(op2, xy, ident(z));
        assert(led(t, all, 5, 0) == Ok::<(SExpr, nat), Seq<char>>((all, 0)));
        assert(led(t, xy, 3, 0) == Ok::<(SExpr, nat), Seq<char>>((all, 2)));
        assert(led(t, ident(x), 1, 0) == Ok::<(SExpr, nat), Seq<char>>((all, 4)));
    }
}

/// How a binary operator is written in Verilog.
pub open spec fn binary_op_text(op: BinaryOp) -> Seq<char> {
    match op {
        BinaryOp::Add => seq!['+'],
        BinaryOp::Subtract => seq!['-'],
        BinaryOp::Multiply => seq!['*'],
        BinaryOp::Divide => seq!['/'],
        BinaryOp::Modulus => seq!['%'],
        BinaryOp::Power => seq!['*', '*'],
        BinaryOp::LessThan => seq!['<'],
        BinaryOp::GreaterThan => seq!['>'],
        BinaryOp::LessThanOrEqual => seq!['<', '='],
        BinaryOp::GreaterThanOrEqual => seq!['>', '='],
        BinaryOp::Equal => seq!['=', '='],
        BinaryOp::NotEqual => seq!['!', '='],
        BinaryOp::CaseEqual => seq!['=', '=', '='],
        BinaryOp::CaseNotEqual => seq!['!', '=', '='],
        BinaryOp::LogicalAnd => seq!['&', '&'],
        BinaryOp::LogicalOr => seq!['|', '|'],
        BinaryOp::BitwiseAnd => seq!['&'],
        BinaryOp::BitwiseOr => seq!['|'],
        BinaryOp::BitwiseXor => seq!['^'],
        BinaryOp::BitwiseXnor => seq!['~', '^'],
        BinaryOp::LogicalShiftLeft => seq!['<', '<'],
        BinaryOp::LogicalShiftRight => seq!['>', '>'],
        BinaryOp::ArithmeticShiftLeft => seq!['<', '<', '<'],
        BinaryOp::ArithmeticShiftRight => seq!['>', '>', '>'],
    }
}

/// How a unary operator is written in Verilog.
pub open spec fn unary_op_text(op: UnaryOp) -> Seq<char> {
    match op {
        UnaryOp::Plus => seq!['+'],
        UnaryOp::Minus => seq!['-'],
        UnaryOp::LogicalNot => seq!['!'],
        UnaryOp::BitwiseNot => seq!['~'],
        UnaryOp::ReductionAnd => seq!['&'],
        UnaryOp::ReductionNand => seq!['~', '&'],
        UnaryOp::ReductionOr => seq!['|'],
        UnaryOp::ReductionNor => seq!['~', '|'],
        UnaryOp::ReductionXor => seq!['^'],
        UnaryOp::ReductionXnor => seq!['~', '^'],
    }
}

/// The parser reads each operator token as the operator it spells: a binary
/// operator token between operands as the binary operator written that way,
/// a prefix operator token as the unary operator written that way.
pub proof fn lemma_operator_spelling(t: STok)
    ensures
        infix(Some(t)) matches Some((op, _, _)) ==> binary_op_text(op)
            == crate::lexer::symbol_text(t),
        prefix_op(Some(t)) matches Some(u) ==> unary_op_text(u) == crate::lexer::symbol_text(t),
{
}

pub open spec fn cond(c: SExpr, a: SExpr, b: SExpr) -> SExpr {
    SExpr::Conditional { cond: Box::new(c), then_expr: Box::new(a), else_expr: Box::new(b) }
}

/// `?:` chains to the right: `a ? b : c ? d : e` is `a ? b : (c ? d : e)`.
#[verifier::rlimit(50)]
pub proof fn lemma_conditional_right_assoc(
    a: Seq<char>,
    b: Seq<char>,
    c: Seq<char>,
    d: Seq<char>,
    e: Seq<char>,
)
    ensures
        pexpr(
            seq![
                STok::Identifier(a),
                STok::Question,
                STok::Identifier(b),
                STok::Colon,
                STok::Identifier(c),
                STok::Question,
                STok::Identifier(d),
                STok::Colon,
                STok::Identifier(e),
            ],
            0,
            0,
        ) == Ok::<(SExpr, nat), Seq<char>>(
            (cond(ident(a), ident(b), cond(ident(c), ident(d), ident(e))), 9),
        ),
{
    let t = seq![
        STok::Identifier(a),
        STok::Question,
        STok::Identifier(b),
        STok::Colon,
        STok::Identifier(c),
        STok::Question,
        STok::Identifier(d),
        STok::Colon,
        STok::Identifier(e),
    ];
    let names = seq![a, b, c, d, e];
    assert forall|k: int| 0 <= k < 5 implies prefix_run(t, 2 * k) =~= Seq::<UnaryOp>::empty()
        && #[trigger] operand(t, 2 * k) == Ok::<(SExpr, nat), Seq<char>>((ident(names[k]), 1)) by {
        assert(tk(t, 2 * k) == Some(STok::Identifier(names[k])));
        assert(tk(t, 2 * k + 1) != Some(STok::LBracket));
        assert(primary(t, 2 * k) == Ok::<(SExpr, nat), Seq<char>>((ident(names[k]), 1)));
        assert(wrap(Seq::<UnaryOp>::empty(), ident(names[k])) == ident(names[k]));
    }
    assert(operand(t, 0) == Ok::<(SExpr, nat), Seq<char>>((ident(a), 1)));
    assert(operand(t, 2) == Ok::<(SExpr, nat), Seq<char>>((ident(b), 1)));
    assert(operand(t, 4) == Ok::<(SExpr, nat), Seq<char>>((ident(c), 1)));
    assert(operand(t, 6) == Ok::<(SExpr, nat), Seq<char>>((ident(d), 1)));
    assert(operand(t, 8) == Ok::<(SExpr, nat), Seq<char>>((ident(e), 1)));
    assert(tk(t, 9) == None::<STok>);
    // the inner conditional
    assert(led(t, ident(d), 7, 0) == Ok::<(SExpr, nat), Seq<char>>((ident(d), 0)));
    assert(pexpr(t, 6, 0) == Ok::<(SExpr, nat), Seq<char>>((ident(d), 1)));
    assert(led(t, ident(e), 9, 9) == Ok::<(SExpr, nat), Seq<char>>((ident(e), 0)));
    assert(pexpr(t, 8, 9) == Ok::<(SExpr, nat), Seq<char>>((ident(e), 1)));
    let inner = cond(ident(c), ident(d), ident(e));
    assert(led(t, inner, 9, 9) == Ok::<(SExpr, nat), Seq<char>>((inner, 0)));
    assert(led(t, ident(c), 5, 9) == Ok::<(SExpr, nat), Seq<char>>((inner, 4)));
    assert(pexpr(t, 4, 9) == Ok::<(SExpr, nat), Seq<char>>((inner, 5)));
    // the outer one
    assert(led(t, ident(b), 3, 0) == Ok::<(SExpr, nat), Seq<char>>((ident(b), 0)));
    assert(pexpr(t, 2, 0) == Ok::<(SExpr, nat), Seq<char>>((ident(b), 1)));
    let outer = cond(ident(a), ident(b), inner);
    assert(led(t, outer, 9, 0) == Ok::<(SExpr, nat), Seq<char>>((outer, 0)));
    assert(led(t, ident(a), 1, 0) == Ok::<(SExpr, nat), Seq<char>>((outer, 8)));
}

/// A prefix operator binds tighter than any binary operator: `u x o y` is
/// `(u x) o y`.
#[verifier::rlimit(50)]
pub proof fn lemma_prefix_binds_tightest(u: STok, x: Seq<char>, o: STok, y: Seq<char>)
    requires
        prefix_op(Some(u)) is Some,
        infix(Some(o)) is Some,
    ensures
        pexpr(seq![u, STok::Identifier(x), o, STok::Identifier(y)], 0, 0) == Ok::<
            (SExpr, nat),
            Seq<char>,
        >(
            (
                bin(
                    infix(Some(o))->Some_0.0,
                    SExpr::Unary { op: prefix_op(Some(u))->Some_0, expr: Box::new(ident(x)) },
                    ident(y),
                ),
                4,
            ),
        ),
{
    let t = seq![u, STok::Identifier(x), o, STok::Identifier(y)];
    let uop = prefix_op(Some(u))->Some_0;
    let (op, l, r) = infix(Some(o))->Some_0;
    assert(tk(t, 0) == Some(u));
    assert(tk(t, 1) == Some(STok::Identifier(x)));
    assert(tk(t, 2) == Some(o));
    assert(tk(t, 3) == Some(STok::Identifier(y)));
    assert(tk(t, 4) == None::<STok>);
    assert(prefix_run(t, 1) =~= Seq::<UnaryOp>::empty());
    assert(prefix_run(t, 0) =~= seq![uop]);
    assert(prefix_run(t, 3) =~= Seq::<UnaryOp>::empty());
    assert(primary(t, 1) == Ok::<(SExpr, nat), Seq<char>>((ident(x), 1)));
    assert(primary(t, 3) == Ok::<(SExpr, nat), Seq<char>>((ident(y), 1)));
    let ux = SExpr::Unary { op: uop, expr: Box::new(ident(x)) };
    assert(seq![uop].drop_last() =~= Seq::<UnaryOp>::empty());
    assert(seq![uop].last() == uop);
    assert(wrap(Seq::<UnaryOp>::empty(), ux) == ux);
    assert(wrap(seq![uop], ident(x)) == ux);
    assert(wrap(Seq::<UnaryOp>::empty(), ident(y)) == ident(y));
    assert(operand(t, 0) == Ok::<(SExpr, nat), Seq<char>>((ux, 2)));
    assert(operand(t, 3) == Ok::<(SExpr, nat), Seq<char>>((ident(y), 1)));
    assert(led(t, ident(y), 4, r) == Ok::<(SExpr, nat), Seq<char>>((ident(y), 0)));
    assert(pexpr(t, 3, r) == Ok::<(SExpr, nat), Seq<char>>((ident(y), 1)));
    let all = bin(op, ux, ident(y));
    assert(led(t, all, 4, 0) == Ok::<(SExpr, nat), Seq<char>>((all, 0)));
    assert(led(t, ux, 2, 0) == Ok::<(SExpr, nat), Seq<char>>((all, 2)));
}

} // verus!

//! Depth-capping of parsed statements before they are rendered: every
//! sub-tree at depth `max` or deeper becomes the `Truncated` placeholder.
//!
//! Depth counting: a statement's top-level expression (or assignment target)
//! is at depth 0 and its direct children at depth 1. The operands of a select
//! (`[i]`, `[m:l]`, `[b +: w]`) sit one level below the select itself.
use crate::ast::{
    DeclName, Expr, LValue, SArg, SDeclName, SExpr, SLValue, SSelect, SStmt, SelectKind, Stmt,
    SystemArg, view_args, view_decl_name, view_decl_names, view_expr, view_exprs, view_lvalue,
    view_lvalues, view_opt_pair, view_select, view_stmt,
};
use crate::parser::reversed;
use vstd::prelude::*;

verus! {

pub open spec fn trunc_expr(e: SExpr, d: nat, max: nat) -> SExpr
    decreases e,
{
    if d >= max {
        SExpr::Truncated
    } else {
        match e {
            SExpr::Grouped(i) => SExpr::Grouped(Box::new(trunc_expr(*i, d + 1, max))),
            SExpr::Unary { op, expr } => SExpr::Unary {
                op,
                expr: Box::new(trunc_expr(*expr, d + 1, max)),
            },
            SExpr::Binary { op, lhs, rhs } => SExpr::Binary {
                op,
                lhs: Box::new(trunc_expr(*lhs, d + 1, max)),
                rhs: Box::new(trunc_expr(*rhs, d + 1, max)),
            },
            SExpr::Conditional { cond, then_expr, else_expr } => SExpr::Conditional {
                cond: Box::new(trunc_expr(*cond, d + 1, max)),
                then_expr: Box::new(trunc_expr(*then_expr, d + 1, max)),
                else_expr: Box::new(trunc_expr(*else_expr, d + 1, max)),
            },
            SExpr::Concatenation { items } => SExpr::Concatenation {
                items: trunc_exprs(items, d + 1, max),
            },
            SExpr::Replication { count, items } => SExpr::Replication {
                count: Box::new(trunc_expr(*count, d + 1, max)),
                items: trunc_exprs(items, d + 1, max),
            },
            SExpr::SystemCall { name, args } => SExpr::SystemCall {
                name,
                args: trunc_args(args, d + 1, max),
            },
            SExpr::Select { name, kind, inner } => SExpr::Select {
                name,
                kind: trunc_select(kind, d + 1, max),
                inner: match inner {
                    Some(k) => Some(trunc_select(k, d + 1, max)),
                    None => None,
                },
            },
            _ => e,
        }
    }
}

/// The operands of a select, kept at the select's own depth.
pub open spec fn trunc_select(k: SSelect, d: nat, max: nat) -> SSelect
    decreases k,
{
    match k {
        SSelect::Bit { index } => SSelect::Bit { index: Box::new(trunc_expr(*index, d, max)) },
        SSelect::PartConst { msb, lsb } => SSelect::PartConst {
            msb: Box::new(trunc_expr(*msb, d, max)),
            lsb: Box::new(trunc_expr(*lsb, d, max)),
        },
        SSelect::PartIndexedUp { base, width } => SSelect::PartIndexedUp {
            base: Box::new(trunc_expr(*base, d, max)),
            width: Box::new(trunc_expr(*width, d, max)),
        },
        SSelect::PartIndexedDown { base, width } => SSelect::PartIndexedDown {
            base: Box::new(trunc_expr(*base, d, max)),
            width: Box::new(trunc_expr(*width, d, max)),
        },
    }
}

pub open spec fn trunc_exprs(s: Seq<SExpr>, d: nat, max: nat) -> Seq<SExpr>
    decreases s,
{
    if s.len() == 0 {
        Seq::empty()
    } else {
        trunc_exprs(s.drop_last(), d, max).push(trunc_expr(s.last(), d, max))
    }
}

pub open spec fn trunc_args(s: Seq<SArg>, d: nat, max: nat) -> Seq<SArg>
    decreases s,
{
    if s.len() == 0 {
        Seq::empty()
    } else {
        trunc_args(s.drop_last(), d, max).push(
            match s.last() {
                SArg::Expr(x) => SArg::Expr(trunc_expr(x, d, max)),
                SArg::Null => SArg::Null,
            },
        )
    }
}

pub open spec fn trunc_lvalue(l: SLValue, d: nat, max: nat) -> SLValue
    decreases l,
{
    if d >= max {
        SLValue::Truncated
    } else {
        match l {
            SLValue::Select { name, kind, inner } => SLValue::Select {
                name,
                kind: trunc_select(kind, d + 1, max),
                inner: match inner {
                    Some(k) => Some(trunc_select(k, d + 1, max)),
                    None => None,
                },
            },
            SLValue::Concat(items) => SLValue::Concat(trunc_lvalues(items, d + 1, max)),
            _ => l,
        }
    }
}

pub open spec fn trunc_lvalues(s: Seq<SLValue>, d: nat, max: nat) -> Seq<SLValue>
    decreases s,
{
    if s.len() == 0 {
        Seq::empty()
    } else {
        trunc_lvalues(s.drop_last(), d, max).push(trunc_lvalue(s.last(), d, max))
    }
}

pub open spec fn trunc_opt_pair(p: Option<(SExpr, SExpr)>, max: nat) -> Option<(SExpr, SExpr)> {
    match p {
        Some((a, b)) => Some((trunc_expr(a, 0, max), trunc_expr(b, 0, max))),
        None => None,
    }
}

pub open spec fn trunc_decl_name(n: SDeclName, max: nat) -> SDeclName {
    SDeclName {
        name: n.name,
        init: match n.init {
            Some(e) => Some(trunc_expr(e, 0, max)),
            None => None,
        },
        dim: trunc_opt_pair(n.dim, max),
    }
}

/// Every expression and assignment target of `s`, capped at depth `max`.
pub open spec fn trunc_stmt(s: SStmt, max: nat) -> SStmt {
    match s {
        SStmt::Expr(e) => SStmt::Expr(trunc_expr(e, 0, max)),
        SStmt::Decl { kind, signed, range, names } => SStmt::Decl {
            kind,
            signed,
            range: trunc_opt_pair(range, max),
            names: names.map_values(|n: SDeclName| trunc_decl_name(n, max)),
        },
        SStmt::Assign { lvalue, rhs } => SStmt::Assign {
            lvalue: trunc_lvalue(lvalue, 0, max),
            rhs: trunc_expr(rhs, 0, max),
        },
    }
}

/// `e`, with every sub-tree at depth `max_depth` or deeper replaced by
/// `Expr::Truncated`; `e` itself is at depth `depth`.
pub fn truncate_expr(e: Expr, depth: usize, max_depth: usize) -> (r: Expr)
    ensures
        view_expr(r) == trunc_expr(view_expr(e), depth as nat, max_depth as nat),
    decreases e,
{
    if depth >= max_depth {
        return Expr::Truncated;
    }
    let d = depth + 1;
    let ghost ge = e;
    match e {
        Expr::Grouped(i) => Expr::Grouped(Box::new(truncate_expr(*i, d, max_depth))),
        Expr::Unary { op, expr } => Expr::Unary {
            op,
            expr: Box::new(truncate_expr(*expr, d, max_depth)),
        },
        Expr::Binary { op, lhs, rhs } => {
            let l = truncate_expr(*lhs, d, max_depth);
            let r = truncate_expr(*rhs, d, max_depth);
            Expr::Binary { op, lhs: Box::new(l), rhs: Box::new(r) }
        },
        Expr::Conditional { cond, then_expr, else_expr } => {
            let c = truncate_expr(*cond, d, max_depth);
            let t = truncate_expr(*then_expr, d, max_depth);
            let f = truncate_expr(*else_expr, d, max_depth);
            Expr::Conditional { cond: Box::new(c), then_expr: Box::new(t), else_expr: Box::new(f) }
        },
        Expr::Concatenation { items } => {
            proof {
                let gi = ge->Concatenation_items;
                assert(decreases_to!(ge => gi));
            }
            Expr::Concatenation { items: truncate_exprs(items, d, max_depth) }
        },
        Expr::Replication { count, items } => {
            proof {
                let gi = ge->Replication_items;
                assert(decreases_to!(ge => gi));
            }
            let c = truncate_expr(*count, d, max_depth);
            Expr::Replication { count: Box::new(c), items: truncate_exprs(items, d, max_depth) }
        },
        Expr::SystemCall { name, args } => {
            proof {
                let ga = ge->SystemCall_args;
                assert(decreases_to!(ge => ga));
            }
            Expr::SystemCall { name, args: truncate_args(args, d, max_depth) }
        },
        Expr::Select { name, kind, inner } => {
            let k = truncate_select(kind, d, max_depth);
            let i = match inner {
                Some(b) => Some(Box::new(truncate_select(*b, d, max_depth))),
                None => None,
            };
            Expr::Select { name, kind: k, inner: i }
        },
        Expr::Literal(l) => Expr::Literal(l),
        Expr::StringLiteral(b) => Expr::StringLiteral(b),
        Expr::RealLiteral(t) => Expr::RealLiteral(t),
        Expr::Identifier(n) => Expr::Identifier(n),
        Expr::Truncated => Expr::Truncated,
    }
}

fn truncate_select(k: SelectKind, d: usize, max_depth: usize) -> (r: SelectKind)
    ensures
        view_select(r) == trunc_select(view_select(k), d as nat, max_depth as nat),
    decreases k,
{
    match k {
        SelectKind::Bit { index } => SelectKind::Bit {
            index: Box::new(truncate_expr(*index, d, max_depth)),
        },
        SelectKind::PartConst { msb, lsb } => {
            let m = truncate_expr(*msb, d, max_depth);
            let l = truncate_expr(*lsb, d, max_depth);
            SelectKind::PartConst { msb: Box::new(m), lsb: Box::new(l) }
        },
        SelectKind::PartIndexedUp { base, width } => {
            let b = truncate_expr(*base, d, max_depth);
            let w = truncate_expr(*width, d, max_depth);
            SelectKind::PartIndexedUp { base: Box::new(b), width: Box::new(w) }
        },
        SelectKind::PartIndexedDown { base, width } => {
            let b = truncate_expr(*base, d, max_depth);
            let w = truncate_expr(*width, d, max_depth);
            SelectKind::PartIndexedDown { base: Box::new(b), width: Box::new(w) }
        },
    }
}

fn truncate_exprs(items: Vec<Expr>, d: usize, max_depth: usize) -> (r: Vec<Expr>)
    ensures
        view_exprs(r@) == trunc_exprs(view_exprs(items@), d as nat, max_depth as nat),
    decreases items,
{
    let ghost orig = items@;
    let n = items.len();
    let mut rest = reversed(items);
    let mut out: Vec<Expr> = Vec::new();
    let mut k: usize = 0;
    assert(orig.take(0) =~= Seq::<Expr>::empty());
    while k < n
        invariant
            k <= n == orig.len(),
            orig == items@,
            rest@.len() == n - k,
            forall|i: int| 0 <= i < n - k ==> #[trigger] rest@[i] == orig[n - 1 - i],
            view_exprs(out@) == trunc_exprs(
                view_exprs(orig.take(k as int)),
                d as nat,
                max_depth as nat,
            ),
        decreases n - k,
    {
        let item = rest.pop().unwrap();
        assert(item == orig[k as int]);
        proof {
            assert(decreases_to!(items => items@));
            assert(decreases_to!(items@ => items@[k as int]));
        }
        let x = truncate_expr(item, d, max_depth);
        let ghost before = out@;
        out.push(x);
        assert(out@.drop_last() =~= before);
        assert(orig.take(k + 1).drop_last() =~= orig.take(k as int));
        assert(view_exprs(orig.take(k + 1)).drop_last() =~= view_exprs(orig.take(k as int)));
        k = k + 1;
    }
    assert(orig.take(n as int) =~= orig);
    out
}

fn truncate_args(args: Vec<SystemArg>, d: usize, max_depth: usize) -> (r: Vec<SystemArg>)
    ensures
        view_args(r@) == trunc_args(view_args(args@), d as nat, max_depth as nat),
    decreases args,
{
    let ghost orig = args@;
    let n = args.len();
    let mut rest = reversed(args);
    let mut out: Vec<SystemArg> = Vec::new();
    let mut k: usize = 0;
    assert(orig.take(0) =~= Seq::<SystemArg>::empty());
    while k < n
        invariant
            k <= n == orig.len(),
            orig == args@,
            rest@.len() == n - k,
            forall|i: int| 0 <= i < n - k ==> #[trigger] rest@[i] == orig[n - 1 - i],
            view_args(out@) == trunc_args(
                view_args(orig.take(k as int)),
                d as nat,
                max_depth as nat,
            ),
        decreases n - k,
    {
        let item = rest.pop().unwrap();
        assert(item == orig[k as int]);
        let x = match item {
            SystemArg::Expr(e) => {
                proof {
                    assert(decreases_to!(args => args@));
                    assert(decreases_to!(args@ => args@[k as int]));
                    assert(decreases_to!(args@[k as int] => e));
                }
                SystemArg::Expr(truncate_expr(e, d, max_depth))
            },
            SystemArg::Null => SystemArg::Null,
        };
        let ghost before = out@;
        out.push(x);
        assert(out@.drop_last() =~= before);
        assert(orig.take(k + 1).drop_last() =~= orig.take(k as int));
        assert(view_args(orig.take(k + 1)).drop_last() =~= view_args(orig.take(k as int)));
        k = k + 1;
    }
    assert(orig.take(n as int) =~= orig);
    out
}

/// `l`, with every sub-tree at depth `max_depth` or deeper replaced by
/// `LValue::Truncated`; `l` itself is at depth `depth`.
pub fn truncate_lvalue(l: LValue, depth: usize, max_depth: usize) -> (r: LValue)
    ensures
        view_lvalue(r) == trunc_lvalue(view_lvalue(l), depth as nat, max_depth as nat),
    decreases l,
{
    if depth >= max_depth {
        return LValue::Truncated;
    }
    let d = depth + 1;
    let ghost gl = l;
    match l {
        LValue::Name(n) => LValue::Name(n),
        LValue::Truncated => LValue::Truncated,
        LValue::Select { name, kind, inner } => {
            let k = truncate_select(kind, d, max_depth);
            let i = match inner {
                Some(b) => Some(Box::new(truncate_select(*b, d, max_depth))),
                None => None,
            };
            LValue::Select { name, kind: k, inner: i }
        },
        LValue::Concat(items) => {
            proof {
                let gi = gl->Concat_0;
                assert(decreases_to!(gl => gi));
            }
            LValue::Concat(truncate_lvalues(items, d, max_depth))
        },
    }
}

fn truncate_lvalues(items: Vec<LValue>, d: usize, max_depth: usize) -> (r: Vec<LValue>)
    ensures
        view_lvalues(r@) == trunc_lvalues(view_lvalues(items@), d as nat, max_depth as nat),
    decreases items,
{
    let ghost orig = items@;
    let n = items.len();
    let mut rest = reversed(items);
    let mut out: Vec<LValue> = Vec::new();
    let mut k: usize = 0;
    assert(orig.take(0) =~= Seq::<LValue>::empty());
    while k < n
        invariant
            k <= n == orig.len(),
            orig == items@,
            rest@.len() == n - k,
            forall|i: int| 0 <= i < n - k ==> #[trigger] rest@[i] == orig[n - 1 - i],
            view_lvalues(out@) == trunc_lvalues(
                view_lvalues(orig.take(k as int)),
                d as nat,
                max_depth as nat,
            ),
        decreases n - k,
    {
        let item = rest.pop().unwrap();
        assert(item == orig[k as int]);
        proof {
            assert(decreases_to!(items => items@));
            assert(decreases_to!(items@ => items@[k as int]));
        }
        let x = truncate_lvalue(item, d, max_depth);
        let ghost before = out@;
        out.push(x);
        assert(out@.drop_last() =~= before);
        assert(orig.take(k + 1).drop_last() =~= orig.take(k as int));
        assert(view_lvalues(orig.take(k + 1)).drop_last() =~= view_lvalues(orig.take(k as int)));
        k = k + 1;
    }
    assert(orig.take(n as int) =~= orig);
    out
}

fn truncate_opt_pair(p: Option<(Expr, Expr)>, max_depth: usize) -> (r: Option<(Expr, Expr)>)
    ensures
        view_opt_pair(r) == trunc_opt_pair(view_opt_pair(p), max_depth as nat),
{
    match p {
        Some((a, b)) => {
            let x = truncate_expr(a, 0, max_depth);
            let y = truncate_expr(b, 0, max_depth);
            Some((x, y))
        },
        None => None,
    }
}

fn truncate_decl_name(n: DeclName, max_depth: usize) -> (r: DeclName)
    ensures
        view_decl_name(r) == trunc_decl_name(view_decl_name(n), max_depth as nat),
{
    let DeclName { name, init, dim } = n;
    let init = match init {
        Some(e) => Some(truncate_expr(e, 0, max_depth)),
        None => None,
    };
    let dim = truncate_opt_pair(dim, max_depth);
    DeclName { name, init, dim }
}

/// `s` with each of its expressions and its assignment target capped at
/// depth `max_depth`.
pub fn truncate_stmt(s: Stmt, max_depth: usize) -> (r: Stmt)
    ensures
        view_stmt(r) == trunc_stmt(view_stmt(s), max_depth as nat),
{
    match s {
        Stmt::Expr(e) => Stmt::Expr(truncate_expr(e, 0, max_depth)),
        Stmt::Decl { kind, signed, range, names } => {
            let range = truncate_opt_pair(range, max_depth);
            let ghost orig = names@;
            let n = names.len();
            let mut rest = reversed(names);
            let mut out: Vec<DeclName> = Vec::new();
            let mut k: usize = 0;
            while k < n
                invariant
                    k <= n == orig.len(),
                    rest@.len() == n - k,
                    forall|i: int| 0 <= i < n - k ==> #[trigger] rest@[i] == orig[n - 1 - i],
                    out@.len() == k,
                    forall|i: int|
                        0 <= i < k ==> #[trigger] view_decl_name(out@[i]) == trunc_decl_name(
                            view_decl_name(orig[i]),
                            max_depth as nat,
                        ),
                decreases n - k,
            {
                let item = rest.pop().unwrap();
                assert(item == orig[k as int]);
                out.push(truncate_decl_name(item, max_depth));
                k = k + 1;
            }
            assert(view_decl_names(out@) =~= view_decl_names(orig).map_values(
                |d: SDeclName| trunc_decl_name(d, max_depth as nat),
            ));
            Stmt::Decl { kind, signed, range, names: out }
        },
        Stmt::Assign { lvalue, rhs } => {
            let l = truncate_lvalue(lvalue, 0, max_depth);
            let r = truncate_expr(rhs, 0, max_depth);
            Stmt::Assign { lvalue: l, rhs: r }
        },
    }
}

// ----- heights, and what truncation keeps -----
pub open spec fn max_nat(a: nat, b: nat) -> nat {
    if a >= b {
        a
    } else {
        b
    }
}

/// Number of levels of `e`: 1 for a leaf; the operands of a select count one
/// level below the select.
pub open spec fn height(e: SExpr) -> nat
    decreases e,
{
    match e {
        SExpr::Grouped(i) => 1 + height(*i),
        SExpr::Unary { expr, .. } => 1 + height(*expr),
        SExpr::Binary { lhs, rhs, .. } => 1 + max_nat(height(*lhs), height(*rhs)),
        SExpr::Conditional { cond, then_expr, else_expr } => 1 + max_nat(
            height(*cond),
            max_nat(height(*then_expr), height(*else_expr)),
        ),
        SExpr::Concatenation { items } => 1 + heights(items),
        SExpr::Replication { count, items } => 1 + max_nat(height(*count), heights(items)),
        SExpr::SystemCall { args, .. } => 1 + arg_heights(args),
        SExpr::Select { kind, inner, .. } => 1 + max_nat(
            select_height(kind),
            match inner {
                Some(k) => select_height(k),
                None => 0,
            },
        ),
        _ => 1,
    }
}

/// The greatest height of the operands of a select.
pub open spec fn select_height(k: SSelect) -> nat
    decreases k,
{
    match k {
        SSelect::Bit { index } => height(*index),
        SSelect::PartConst { msb, lsb } => max_nat(height(*msb), height(*lsb)),
        SSelect::PartIndexedUp { base, width } => max_nat(height(*base), height(*width)),
        SSelect::PartIndexedDown { base, width } => max_nat(height(*base), height(*width)),
    }
}

/// The greatest height in `s` (0 when empty).
pub open spec fn heights(s: Seq<SExpr>) -> nat
    decreases s,
{
    if s.len() == 0 {
        0
    } else {
        max_nat(heights(s.drop_last()), height(s.last()))
    }
}

pub open spec fn arg_heights(s: Seq<SArg>) -> nat
    decreases s,
{
    if s.len() == 0 {
        0
    } else {
        max_nat(
            arg_heights(s.drop_last()),
            match s.last() {
                SArg::Expr(x) => height(x),
                SArg::Null => 0,
            },
        )
    }
}

/// Truncating at a cap no shallower than the tree changes nothing: an
/// expression whose levels all lie above depth `max` is kept whole.
pub proof fn lemma_trunc_keeps_shallow(e: SExpr, d: nat, max: nat)
    requires
        d + height(e) <= max,
    ensures
        trunc_expr(e, d, max) == e,
    decreases e,
{
    match e {
        SExpr::Grouped(i) => lemma_trunc_keeps_shallow(*i, d + 1, max),
        SExpr::Unary { expr, .. } => lemma_trunc_keeps_shallow(*expr, d + 1, max),
        SExpr::Binary { lhs, rhs, .. } => {
            lemma_trunc_keeps_shallow(*lhs, d + 1, max);
            lemma_trunc_keeps_shallow(*rhs, d + 1, max);
        },
        SExpr::Conditional { cond, then_expr, else_expr } => {
            lemma_trunc_keeps_shallow(*cond, d + 1, max);
            lemma_trunc_keeps_shallow(*then_expr, d + 1, max);
            lemma_trunc_keeps_shallow(*else_expr, d + 1, max);
        },
        SExpr::Concatenation { items } => lemma_trunc_exprs_keep_shallow(items, d + 1, max),
        SExpr::Replication { count, items } => {
            lemma_trunc_keeps_shallow(*count, d + 1, max);
            lemma_trunc_exprs_keep_shallow(items, d + 1, max);
        },
        SExpr::SystemCall { args, .. } => lemma_trunc_args_keep_shallow(args, d + 1, max),
        SExpr::Select { kind, inner, .. } => {
            lemma_trunc_select_keeps_shallow(kind, d + 1, max);
            match inner {
                Some(k) => lemma_trunc_select_keeps_shallow(k, d + 1, max),
                None => {},
            }
        },
        _ => {},
    }
}

pub proof fn lemma_trunc_select_keeps_shallow(k: SSelect, d: nat, max: nat)
    requires
        d + select_height(k) <= max,
    ensures
        trunc_select(k, d, max) == k,
    decreases k,
{
    match k {
        SSelect::Bit { index } => lemma_trunc_keeps_shallow(*index, d, max),
        SSelect::PartConst { msb, lsb } => {
            lemma_trunc_keeps_shallow(*msb, d, max);
            lemma_trunc_keeps_shallow(*lsb, d, max);
        },
        SSelect::PartIndexedUp { base, width } => {
            lemma_trunc_keeps_shallow(*base, d, max);
            lemma_trunc_keeps_shallow(*width, d, max);
        },
        SSelect::PartIndexedDown { base, width } => {
            lemma_trunc_keeps_shallow(*base, d, max);
            lemma_trunc_keeps_shallow(*width, d, max);
        },
    }
}

pub proof fn lemma_trunc_exprs_keep_shallow(s: Seq<SExpr>, d: nat, max: nat)
    requires
        d + heights(s) <= max,
    ensures
        trunc_exprs(s, d, max) == s,
    decreases s,
{
    if s.len() > 0 {
        lemma_trunc_exprs_keep_shallow(s.drop_last(), d, max);
        lemma_trunc_keeps_shallow(s.last(), d, max);
        assert(s.drop_last().push(s.last()) =~= s);
    }
}

pub proof fn lemma_trunc_args_keep_shallow(s: Seq<SArg>, d: nat, max: nat)
    requires
        d + arg_heights(s) <= max,
    ensures
        trunc_args(s, d, max) == s,
    decreases s,
{
    if s.len() > 0 {
        lemma_trunc_args_keep_shallow(s.drop_last(), d, max);
        match s.last() {
            SArg::Expr(x) => lemma_trunc_keeps_shallow(x, d, max),
            SArg::Null => {},
        }
        assert(s.drop_last().push(s.last()) =~= s);
    }
}

/// After truncation at `max`, no level of an expression starting at depth
/// `d` lies below depth `max`: its height is at most `max - d + 1`, the last
/// level being the `Truncated` placeholders.
pub proof fn lemma_trunc_height(e: SExpr, d: nat, max: nat)
    requires
        d <= max,
    ensures
        d + height(trunc_expr(e, d, max)) <= max + 1,
    decreases e,
{
    if d < max {
        match e {
            SExpr::Grouped(i) => lemma_trunc_height(*i, d + 1, max),
            SExpr::Unary { expr, .. } => lemma_trunc_height(*expr, d + 1, max),
            SExpr::Binary { lhs, rhs, .. } => {
                lemma_trunc_height(*lhs, d + 1, max);
                lemma_trunc_height(*rhs, d + 1, max);
            },
            SExpr::Conditional { cond, then_expr, else_expr } => {
                lemma_trunc_height(*cond, d + 1, max);
                lemma_trunc_height(*then_expr, d + 1, max);
                lemma_trunc_height(*else_expr, d + 1, max);
            },
            SExpr::Concatenation { items } => lemma_trunc_exprs_height(items, d + 1, max),
            SExpr::Replication { count, items } => {
                lemma_trunc_height(*count, d + 1, max);
                lemma_trunc_exprs_height(items, d + 1, max);
            },
            SExpr::SystemCall { args, .. } => lemma_trunc_args_height(args, d + 1, max),
            SExpr::Select { kind, inner, .. } => {
                lemma_trunc_select_height(kind, d + 1, max);
                match inner {
                    Some(k) => lemma_trunc_select_height(k, d + 1, max),
                    None => {},
                }
            },
            _ => {},
        }
    }
}

pub proof fn lemma_trunc_select_height(k: SSelect, d: nat, max: nat)
    requires
        d <= max,
    ensures
        d + select_height(trunc_select(k, d, max)) <= max + 1,
    decreases k,
{
    match k {
        SSelect::Bit { index } => lemma_trunc_height(*index, d, max),
        SSelect::PartConst { msb, lsb } => {
            lemma_trunc_height(*msb, d, max);
            lemma_trunc_height(*lsb, d, max);
        },
        SSelect::PartIndexedUp { base, width } => {
            lemma_trunc_height(*base, d, max);
            lemma_trunc_height(*width, d, max);
        },
        SSelect::PartIndexedDown { base, width } => {
            lemma_trunc_height(*base, d, max);
            lemma_trunc_height(*width, d, max);
        },
    }
}

pub proof fn lemma_trunc_exprs_height(s: Seq<SExpr>, d: nat, max: nat)
    requires
        d <= max,
    ensures
        d + heights(trunc_exprs(s, d, max)) <= max + 1,
    decreases s,
{
    if s.len() > 0 {
        lemma_trunc_exprs_height(s.drop_last(), d, max);
        lemma_trunc_height(s.last(), d, max);
        let t = trunc_exprs(s, d, max);
        assert(t.drop_last() == trunc_exprs(s.drop_last(), d, max));
    }
}

pub proof fn lemma_trunc_args_height(s: Seq<SArg>, d: nat, max: nat)
    requires
        d <= max,
    ensures
        d + arg_heights(trunc_args(s, d, max)) <= max + 1,
    decreases s,
{
    if s.len() > 0 {
        lemma_trunc_args_height(s.drop_last(), d, max);
        match s.last() {
            SArg::Expr(x) => lemma_trunc_height(x, d, max),
            SArg::Null => {},
        }
        let t = trunc_args(s, d, max);
        assert(t.drop_last() == trunc_args(s.drop_last(), d, max));
    }
}

/// At cap 0 every expression and every assignment target becomes the
/// placeholder.
pub proof fn lemma_trunc_zero(e: SExpr, l: SLValue)
    ensures
        trunc_expr(e, 0, 0) == SExpr::Truncated,
        trunc_lvalue(l, 0, 0) == SLValue::Truncated,
{
}

pub open spec fn lv_height(l: SLValue) -> nat
    decreases l,
{
    match l {
        SLValue::Select { kind, inner, .. } => 1 + max_nat(
            select_height(kind),
            match inner {
                Some(k) => select_height(k),
                None => 0,
            },
        ),
        SLValue::Concat(items) => 1 + lv_heights(items),
        _ => 1,
    }
}

pub open spec fn lv_heights(s: Seq<SLValue>) -> nat
    decreases s,
{
    if s.len() == 0 {
        0
    } else {
        max_nat(lv_heights(s.drop_last()), lv_height(s.last()))
    }
}

pub open spec fn pair_height(p: Option<(SExpr, SExpr)>) -> nat {
    match p {
        Some((a, b)) => max_nat(height(a), height(b)),
        None => 0,
    }
}

pub open spec fn name_height(n: SDeclName) -> nat {
    max_nat(
        match n.init {
            Some(e) => height(e),
            None => 0,
        },
        pair_height(n.dim),
    )
}

pub proof fn lemma_trunc_lvalue_keeps_shallow(l: SLValue, d: nat, max: nat)
    requires
        d + lv_height(l) <= max,
    ensures
        trunc_lvalue(l, d, max) == l,
    decreases l,
{
    match l {
        SLValue::Select { kind, inner, .. } => {
            lemma_trunc_select_keeps_shallow(kind, d + 1, max);
            match inner {
                Some(k) => lemma_trunc_select_keeps_shallow(k, d + 1, max),
                None => {},
            }
        },
        SLValue::Concat(items) => lemma_trunc_lvalues_keep_shallow(items, d + 1, max),
        _ => {},
    }
}

pub proof fn lemma_trunc_lvalues_keep_shallow(s: Seq<SLValue>, d: nat, max: nat)
    requires
        d + lv_heights(s) <= max,
    ensures
        trunc_lvalues(s, d, max) == s,
    decreases s,
{
    if s.len() > 0 {
        lemma_trunc_lvalues_keep_shallow(s.drop_last(), d, max);
        lemma_trunc_lvalue_keeps_shallow(s.last(), d, max);
        assert(s.drop_last().push(s.last()) =~= s);
    }
}

/// No tree of the statement `s` reaches depth `max`.
pub open spec fn stmt_within(s: SStmt, max: nat) -> bool {
    match s {
        SStmt::Expr(e) => height(e) <= max,
        SStmt::Decl { range, names, .. } => pair_height(range) <= max && forall|i: int|
            0 <= i < names.len() ==> #[trigger] name_height(names[i]) <= max,
        SStmt::Assign { lvalue, rhs } => lv_height(lvalue) <= max && height(rhs) <= max,
    }
}

/// A statement none of whose trees reaches depth `max` is kept whole by
/// truncation at `max`.
pub proof fn lemma_trunc_stmt_keeps_shallow(s: SStmt, max: nat)
    requires
        stmt_within(s, max),
    ensures
        trunc_stmt(s, max) == s,
{
    match s {
        SStmt::Expr(e) => lemma_trunc_keeps_shallow(e, 0, max),
        SStmt::Decl { kind, signed, range, names } => {
            match range {
                Some((a, b)) => {
                    lemma_trunc_keeps_shallow(a, 0, max);
                    lemma_trunc_keeps_shallow(b, 0, max);
                },
                None => {},
            }
            assert forall|i: int| 0 <= i < names.len() implies trunc_decl_name(names[i], max)
                == names[i] by {
                let n = names[i];
                assert(name_height(n) <= max);
                match n.init {
                    Some(e) => lemma_trunc_keeps_shallow(e, 0, max),
                    None => {},
                }
                match n.dim {
                    Some((a, b)) => {
                        lemma_trunc_keeps_shallow(a, 0, max);
                        lemma_trunc_keeps_shallow(b, 0, max);
                    },
                    None => {},
                }
            }
            assert(names.map_values(|n: SDeclName| trunc_decl_name(n, max)) =~= names);
        },
        SStmt::Assign { lvalue, rhs } => {
            lemma_trunc_lvalue_keeps_shallow(lvalue, 0, max);
            lemma_trunc_keeps_shallow(rhs, 0, max);
        },
    }
}

/// A deeper cap keeps at least what a shallower one keeps: truncating at `n`
/// and then at `m <= n` is truncating at `m` (for `m == n`, truncating twice
/// is truncating once).
pub proof fn lemma_trunc_compose(e: SExpr, d: nat, m: nat, n: nat)
    requires
        m <= n,
    ensures
        trunc_expr(trunc_expr(e, d, n), d, m) == trunc_expr(e, d, m),
    decreases e,
{
    if d < m {
        match e {
            SExpr::Grouped(i) => lemma_trunc_compose(*i, d + 1, m, n),
            SExpr::Unary { expr, .. } => lemma_trunc_compose(*expr, d + 1, m, n),
            SExpr::Binary { lhs, rhs, .. } => {
                lemma_trunc_compose(*lhs, d + 1, m, n);
                lemma_trunc_compose(*rhs, d + 1, m, n);
            },
            SExpr::Conditional { cond, then_expr, else_expr } => {
                lemma_trunc_compose(*cond, d + 1, m, n);
                lemma_trunc_compose(*then_expr, d + 1, m, n);
                lemma_trunc_compose(*else_expr, d + 1, m, n);
            },
            SExpr::Concatenation { items } => lemma_trunc_exprs_compose(items, d + 1, m, n),
            SExpr::Replication { count, items } => {
                lemma_trunc_compose(*count, d + 1, m, n);
                lemma_trunc_exprs_compose(items, d + 1, m, n);
            },
            SExpr::SystemCall { args, .. } => lemma_trunc_args_compose(args, d + 1, m, n),
            SExpr::Select { kind, inner, .. } => {
                lemma_trunc_select_compose(kind, d + 1, m, n);
                match inner {
                    Some(k) => lemma_trunc_select_compose(k, d + 1, m, n),
                    None => {},
                }
            },
            _ => {},
        }
    }
}

pub proof fn lemma_trunc_select_compose(k: SSelect, d: nat, m: nat, n: nat)
    requires
        m <= n,
    ensures
        trunc_select(trunc_select(k, d, n), d, m) == trunc_select(k, d, m),
    decreases k,
{
    match k {
        SSelect::Bit { index } => lemma_trunc_compose(*index, d, m, n),
        SSelect::PartConst { msb, lsb } => {
            lemma_trunc_compose(*msb, d, m, n);
            lemma_trunc_compose(*lsb, d, m, n);
        },
        SSelect::PartIndexedUp { base, width } => {
            lemma_trunc_compose(*base, d, m, n);
            lemma_trunc_compose(*width, d, m, n);
        },
        SSelect::PartIndexedDown { base, width } => {
            lemma_trunc_compose(*base, d, m, n);
            lemma_trunc_compose(*width, d, m, n);
        },
    }
}

pub proof fn lemma_trunc_exprs_compose(s: Seq<SExpr>, d: nat, m: nat, n: nat)
    requires
        m <= n,
    ensures
        trunc_exprs(trunc_exprs(s, d, n), d, m) == trunc_exprs(s, d, m),
    decreases s,
{
    if s.len() > 0 {
        lemma_trunc_exprs_compose(s.drop_last(), d, m, n);
        lemma_trunc_compose(s.last(), d, m, n);
        let t = trunc_exprs(s, d, n);
        assert(t.drop_last() == trunc_exprs(s.drop_last(), d, n));
    }
}

pub proof fn lemma_trunc_args_compose(s: Seq<SArg>, d: nat, m: nat, n: nat)
    requires
        m <= n,
    ensures
        trunc_args(trunc_args(s, d, n), d, m) == trunc_args(s, d, m),
    decreases s,
{
    if s.len() > 0 {
        lemma_trunc_args_compose(s.drop_last(), d, m, n);
        match s.last() {
            SArg::Expr(x) => lemma_trunc_compose(x, d, m, n),
            SArg::Null => {},
        }
        let t = trunc_args(s, d, n);
        assert(t.drop_last() == trunc_args(s.drop_last(), d, n));
    }
}

} // verus!

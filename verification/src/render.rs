//! Pretty multi-line rendering of parsed statements, in the layout of Rust's
//! alternate (`{:#?}`) debug format: a struct prints as `Name {` with one
//! `field: value,` line per field and a closing `}`, a one-field tuple variant
//! as `Name(` / `value,` / `)`, a list as `[` / `item,` ... / `]` (or `[]`),
//! and every nested line is indented four spaces deeper than its parent.
use crate::ast::{
    Base, BinaryOp, DeclKind, DeclName, Expr, LValue, LiteralPayload, LiteralSpec, LogicBit, SArg,
    SDeclName, SExpr, SLValue, SLiteral, SPayload, SSelect, SStmt, SelectKind, Stmt, SystemArg,
    UnaryOp, view_args, view_decl_name, view_decl_names, view_expr, view_exprs, view_lvalue,
    view_lvalues, view_opt_expr, view_opt_pair, view_select, view_stmt, view_stmts,
};
use crate::bignum::{biguint_decimal, decimal_string, digit_char};
use crate::parser::lemma_view_exprs;
use crate::text::{append_str, owned, push_char};
use vstd::prelude::*;

verus! {

// ----- layout -----
pub open spec fn deeper(ind: Seq<char>) -> Seq<char> {
    ind + "    "@
}

/// A line break followed by the indentation `ind`.
pub open spec fn nl(ind: Seq<char>) -> Seq<char> {
    "\n"@ + ind
}

/// A one-field tuple variant `name(v)` whose own lines start at `ind`.
pub open spec fn tuple1(name: Seq<char>, v: Seq<char>, ind: Seq<char>) -> Seq<char> {
    name + "("@ + nl(deeper(ind)) + v + ","@ + nl(ind) + ")"@
}

/// The `f: v,` line of a struct whose own lines start at `ind`.
pub open spec fn field(f: Seq<char>, v: Seq<char>, ind: Seq<char>) -> Seq<char> {
    nl(deeper(ind)) + f + ": "@ + v + ","@
}

/// A struct `name { fields }`; `fields` is its `field` lines in order.
pub open spec fn struct_of(name: Seq<char>, fields: Seq<char>, ind: Seq<char>) -> Seq<char> {
    name + " {"@ + fields + nl(ind) + "}"@
}

/// One element line of a list whose own lines start at `ind`.
pub open spec fn item(v: Seq<char>, ind: Seq<char>) -> Seq<char> {
    nl(deeper(ind)) + v + ","@
}

/// A list of `n` elements whose `item` lines are `items`.
pub open spec fn list_of(items: Seq<char>, n: nat, ind: Seq<char>) -> Seq<char> {
    if n == 0 {
        "[]"@
    } else {
        "["@ + items + nl(ind) + "]"@
    }
}

/// The `item` lines of already rendered elements.
pub open spec fn items_of(vs: Seq<Seq<char>>, ind: Seq<char>) -> Seq<char>
    decreases vs.len(),
{
    if vs.len() == 0 {
        Seq::empty()
    } else {
        items_of(vs.drop_last(), ind) + item(vs.last(), ind)
    }
}

pub open spec fn quoted(s: Seq<char>) -> Seq<char> {
    "\""@ + s + "\""@
}

pub open spec fn bool_text(b: bool) -> Seq<char> {
    if b {
        "true"@
    } else {
        "false"@
    }
}

// ----- names of unit variants -----
pub open spec fn base_name(b: Base) -> Seq<char> {
    match b {
        Base::Binary => "Binary"@,
        Base::Octal => "Octal"@,
        Base::Decimal => "Decimal"@,
        Base::Hex => "Hex"@,
    }
}

pub open spec fn bit_name(b: LogicBit) -> Seq<char> {
    match b {
        LogicBit::Zero => "Zero"@,
        LogicBit::One => "One"@,
        LogicBit::X => "X"@,
        LogicBit::Z => "Z"@,
    }
}

pub open spec fn kind_name(k: DeclKind) -> Seq<char> {
    match k {
        DeclKind::Reg => "Reg"@,
        DeclKind::Integer => "Integer"@,
        DeclKind::Real => "Real"@,
    }
}

pub open spec fn unary_name(op: UnaryOp) -> Seq<char> {
    match op {
        UnaryOp::Plus => "Plus"@,
        UnaryOp::Minus => "Minus"@,
        UnaryOp::LogicalNot => "LogicalNot"@,
        UnaryOp::BitwiseNot => "BitwiseNot"@,
        UnaryOp::ReductionAnd => "ReductionAnd"@,
        UnaryOp::ReductionNand => "ReductionNand"@,
        UnaryOp::ReductionOr => "ReductionOr"@,
        UnaryOp::ReductionNor => "ReductionNor"@,
        UnaryOp::ReductionXor => "ReductionXor"@,
        UnaryOp::ReductionXnor => "ReductionXnor"@,
    }
}

pub open spec fn binary_name(op: BinaryOp) -> Seq<char> {
    match op {
        BinaryOp::Add => "Add"@,
        BinaryOp::Subtract => "Subtract"@,
        BinaryOp::Multiply => "Multiply"@,
        BinaryOp::Divide => "Divide"@,
        BinaryOp::Modulus => "Modulus"@,
        BinaryOp::Power => "Power"@,
        BinaryOp::LessThan => "LessThan"@,
        BinaryOp::GreaterThan => "GreaterThan"@,
        BinaryOp::LessThanOrEqual => "LessThanOrEqual"@,
        BinaryOp::GreaterThanOrEqual => "GreaterThanOrEqual"@,
        BinaryOp::Equal => "Equal"@,
        BinaryOp::NotEqual => "NotEqual"@,
        BinaryOp::CaseEqual => "CaseEqual"@,
        BinaryOp::CaseNotEqual => "CaseNotEqual"@,
        BinaryOp::LogicalAnd => "LogicalAnd"@,
        BinaryOp::LogicalOr => "LogicalOr"@,
        BinaryOp::BitwiseAnd => "BitwiseAnd"@,
        BinaryOp::BitwiseOr => "BitwiseOr"@,
        BinaryOp::BitwiseXor => "BitwiseXor"@,
        BinaryOp::BitwiseXnor => "BitwiseXnor"@,
        BinaryOp::LogicalShiftLeft => "LogicalShiftLeft"@,
        BinaryOp::LogicalShiftRight => "LogicalShiftRight"@,
        BinaryOp::ArithmeticShiftLeft => "ArithmeticShiftLeft"@,
        BinaryOp::ArithmeticShiftRight => "ArithmeticShiftRight"@,
    }
}

// ----- the rendering of each node -----
pub open spec fn r_payload(p: SPayload, ind: Seq<char>) -> Seq<char> {
    match p {
        SPayload::Numeric { magnitude } => struct_of(
            "Numeric"@,
            field("magnitude"@, decimal_string(magnitude), ind),
            ind,
        ),
        SPayload::Bits { low_bits, fill } => struct_of(
            "Bits"@,
            field(
                "low_bits"@,
                list_of(
                    items_of(low_bits.map_values(|b: LogicBit| bit_name(b)), deeper(ind)),
                    low_bits.len(),
                    deeper(ind),
                ),
                ind,
            ) + field("fill"@, bit_name(fill), ind),
            ind,
        ),
    }
}

pub open spec fn r_literal(l: SLiteral, ind: Seq<char>) -> Seq<char> {
    struct_of(
        "LiteralSpec"@,
        field("width"@, decimal_string(l.width as nat), ind) + field(
            "signed"@,
            bool_text(l.signed),
            ind,
        ) + field("base"@, base_name(l.base), ind) + field(
            "unsized_literal"@,
            bool_text(l.unsized_literal),
            ind,
        ) + field("payload"@, r_payload(l.payload, deeper(ind)), ind),
        ind,
    )
}

pub open spec fn r_bytes(b: Seq<u8>, ind: Seq<char>) -> Seq<char> {
    list_of(items_of(b.map_values(|x: u8| decimal_string(x as nat)), ind), b.len(), ind)
}

/// A real literal is shown by its source text (underscores removed): the
/// library holds no floating-point value to print in shortest form.
pub open spec fn r_expr(e: SExpr, ind: Seq<char>) -> Seq<char>
    decreases e,
{
    let d = deeper(ind);
    match e {
        SExpr::Literal(l) => tuple1("Literal"@, r_literal(l, d), ind),
        SExpr::StringLiteral(b) => tuple1("StringLiteral"@, r_bytes(b, d), ind),
        SExpr::RealLiteral(t) => tuple1("RealLiteral"@, t, ind),
        SExpr::Grouped(i) => tuple1("Grouped"@, r_expr(*i, d), ind),
        SExpr::Unary { op, expr } => struct_of(
            "Unary"@,
            field("op"@, unary_name(op), ind) + field("expr"@, r_expr(*expr, d), ind),
            ind,
        ),
        SExpr::Binary { op, lhs, rhs } => struct_of(
            "Binary"@,
            field("op"@, binary_name(op), ind) + field("lhs"@, r_expr(*lhs, d), ind) + field(
                "rhs"@,
                r_expr(*rhs, d),
                ind,
            ),
            ind,
        ),
        SExpr::Conditional { cond, then_expr, else_expr } => struct_of(
            "Conditional"@,
            field("cond"@, r_expr(*cond, d), ind) + field("then_expr"@, r_expr(*then_expr, d), ind)
                + field("else_expr"@, r_expr(*else_expr, d), ind),
            ind,
        ),
        SExpr::Concatenation { items } => struct_of(
            "Concatenation"@,
            field("items"@, list_of(r_items(items, d), items.len(), d), ind),
            ind,
        ),
        SExpr::Replication { count, items } => struct_of(
            "Replication"@,
            field("count"@, r_expr(*count, d), ind) + field(
                "items"@,
                list_of(r_items(items, d), items.len(), d),
                ind,
            ),
            ind,
        ),
        SExpr::SystemCall { name, args } => struct_of(
            "SystemCall"@,
            field("name"@, quoted(name), ind) + field(
                "args"@,
                list_of(r_args(args, d), args.len(), d),
                ind,
            ),
            ind,
        ),
        SExpr::Identifier(n) => tuple1("Identifier"@, quoted(n), ind),
        SExpr::Select { name, kind, inner } => struct_of(
            "Select"@,
            field("name"@, quoted(name), ind) + field("kind"@, r_select(kind, d), ind) + field(
                "inner"@,
                r_opt_select(inner, d),
                ind,
            ),
            ind,
        ),
        SExpr::Truncated => "Truncated"@,
    }
}

/// The `item` lines of the expressions `s` of a list whose lines start at `ind`.
pub open spec fn r_items(s: Seq<SExpr>, ind: Seq<char>) -> Seq<char>
    decreases s,
{
    if s.len() == 0 {
        Seq::empty()
    } else {
        r_items(s.drop_last(), ind) + item(r_expr(s.last(), deeper(ind)), ind)
    }
}

pub open spec fn r_args(s: Seq<SArg>, ind: Seq<char>) -> Seq<char>
    decreases s,
{
    if s.len() == 0 {
        Seq::empty()
    } else {
        r_args(s.drop_last(), ind) + item(
            match s.last() {
                SArg::Expr(x) => tuple1("Expr"@, r_expr(x, deeper(deeper(ind))), deeper(ind)),
                SArg::Null => "Null"@,
            },
            ind,
        )
    }
}

pub open spec fn r_select(k: SSelect, ind: Seq<char>) -> Seq<char>
    decreases k,
{
    let d = deeper(ind);
    match k {
        SSelect::Bit { index } => struct_of("Bit"@, field("index"@, r_expr(*index, d), ind), ind),
        SSelect::PartConst { msb, lsb } => struct_of(
            "PartConst"@,
            field("msb"@, r_expr(*msb, d), ind) + field("lsb"@, r_expr(*lsb, d), ind),
            ind,
        ),
        SSelect::PartIndexedUp { base, width } => struct_of(
            "PartIndexedUp"@,
            field("base"@, r_expr(*base, d), ind) + field("width"@, r_expr(*width, d), ind),
            ind,
        ),
        SSelect::PartIndexedDown { base, width } => struct_of(
            "PartIndexedDown"@,
            field("base"@, r_expr(*base, d), ind) + field("width"@, r_expr(*width, d), ind),
            ind,
        ),
    }
}

pub open spec fn r_opt_select(o: Option<SSelect>, ind: Seq<char>) -> Seq<char>
    decreases o,
{
    match o {
        Some(k) => tuple1("Some"@, r_select(k, deeper(ind)), ind),
        None => "None"@,
    }
}

pub open spec fn r_opt_expr(o: Option<SExpr>, ind: Seq<char>) -> Seq<char> {
    match o {
        Some(x) => tuple1("Some"@, r_expr(x, deeper(ind)), ind),
        None => "None"@,
    }
}

/// A pair `(a, b)` whose own lines start at `ind`.
pub open spec fn r_pair(a: SExpr, b: SExpr, ind: Seq<char>) -> Seq<char> {
    "("@ + item(r_expr(a, deeper(ind)), ind) + item(r_expr(b, deeper(ind)), ind) + nl(ind) + ")"@
}

pub open spec fn r_opt_pair(o: Option<(SExpr, SExpr)>, ind: Seq<char>) -> Seq<char> {
    match o {
        Some((a, b)) => tuple1("Some"@, r_pair(a, b, deeper(ind)), ind),
        None => "None"@,
    }
}

pub open spec fn r_decl_name(n: SDeclName, ind: Seq<char>) -> Seq<char> {
    let d = deeper(ind);
    struct_of(
        "DeclName"@,
        field("name"@, quoted(n.name), ind) + field("init"@, r_opt_expr(n.init, d), ind) + field(
            "dim"@,
            r_opt_pair(n.dim, d),
            ind,
        ),
        ind,
    )
}

pub open spec fn r_lvalue(l: SLValue, ind: Seq<char>) -> Seq<char>
    decreases l,
{
    let d = deeper(ind);
    match l {
        SLValue::Name(n) => tuple1("Name"@, quoted(n), ind),
        SLValue::Select { name, kind, inner } => struct_of(
            "Select"@,
            field("name"@, quoted(name), ind) + field("kind"@, r_select(kind, d), ind) + field(
                "inner"@,
                r_opt_select(inner, d),
                ind,
            ),
            ind,
        ),
        SLValue::Concat(items) => tuple1("Concat"@, list_of(r_lv_items(items, d), items.len(), d), ind),
        SLValue::Truncated => "Truncated"@,
    }
}

pub open spec fn r_lv_items(s: Seq<SLValue>, ind: Seq<char>) -> Seq<char>
    decreases s,
{
    if s.len() == 0 {
        Seq::empty()
    } else {
        r_lv_items(s.drop_last(), ind) + item(r_lvalue(s.last(), deeper(ind)), ind)
    }
}

pub open spec fn r_stmt(s: SStmt, ind: Seq<char>) -> Seq<char> {
    let d = deeper(ind);
    match s {
        SStmt::Expr(e) => tuple1("Expr"@, r_expr(e, d), ind),
        SStmt::Decl { kind, signed, range, names } => struct_of(
            "Decl"@,
            field("kind"@, kind_name(kind), ind) + field("signed"@, bool_text(signed), ind) + field(
                "range"@,
                r_opt_pair(range, d),
                ind,
            ) + field(
                "names"@,
                list_of(
                    items_of(names.map_values(|n: SDeclName| r_decl_name(n, deeper(d))), d),
                    names.len(),
                    d,
                ),
                ind,
            ),
            ind,
        ),
        SStmt::Assign { lvalue, rhs } => struct_of(
            "Assign"@,
            field("lvalue"@, r_lvalue(lvalue, d), ind) + field("rhs"@, r_expr(rhs, d), ind),
            ind,
        ),
    }
}

/// The whole statement list, starting at the left margin.
pub open spec fn r_stmts(s: Seq<SStmt>) -> Seq<char> {
    list_of(items_of(s.map_values(|x: SStmt| r_stmt(x, deeper(Seq::empty()))), Seq::empty()), s.len(), Seq::empty())
}

// ----- executable rendering -----
fn s_deeper(ind: &String) -> (r: String)
    ensures
        r@ == deeper(ind@),
{
    let mut r = owned(ind.as_str());
    append_str(&mut r, "    ");
    r
}

fn s_nl(ind: &String) -> (r: String)
    ensures
        r@ == nl(ind@),
{
    let mut r = owned("\n");
    append_str(&mut r, ind.as_str());
    r
}

fn s_tuple1(name: &str, v: &String, ind: &String) -> (r: String)
    ensures
        r@ == tuple1(name@, v@, ind@),
{
    let d = s_deeper(ind);
    let mut r = owned(name);
    append_str(&mut r, "(");
    append_str(&mut r, s_nl(&d).as_str());
    append_str(&mut r, v.as_str());
    append_str(&mut r, ",");
    append_str(&mut r, s_nl(ind).as_str());
    append_str(&mut r, ")");
    r
}

fn s_field(f: &str, v: &String, ind: &String) -> (r: String)
    ensures
        r@ == field(f@, v@, ind@),
{
    let d = s_deeper(ind);
    let mut r = s_nl(&d);
    append_str(&mut r, f);
    append_str(&mut r, ": ");
    append_str(&mut r, v.as_str());
    append_str(&mut r, ",");
    r
}

fn s_struct(name: &str, fields: &String, ind: &String) -> (r: String)
    ensures
        r@ == struct_of(name@, fields@, ind@),
{
    let mut r = owned(name);
    append_str(&mut r, " {");
    append_str(&mut r, fields.as_str());
    append_str(&mut r, s_nl(ind).as_str());
    append_str(&mut r, "}");
    r
}

fn s_item(v: &String, ind: &String) -> (r: String)
    ensures
        r@ == item(v@, ind@),
{
    let d = s_deeper(ind);
    let mut r = s_nl(&d);
    append_str(&mut r, v.as_str());
    append_str(&mut r, ",");
    r
}

fn s_list(items: &String, n: usize, ind: &String) -> (r: String)
    ensures
        r@ == list_of(items@, n as nat, ind@),
{
    if n == 0 {
        return owned("[]");
    }
    let mut r = owned("[");
    append_str(&mut r, items.as_str());
    append_str(&mut r, s_nl(ind).as_str());
    append_str(&mut r, "]");
    r
}

fn s_quoted(s: &String) -> (r: String)
    ensures
        r@ == quoted(s@),
{
    let mut r = owned("\"");
    append_str(&mut r, s.as_str());
    append_str(&mut r, "\"");
    r
}

fn bool_str(b: bool) -> (r: &'static str)
    ensures
        r@ == bool_text(b),
{
    if b {
        "true"
    } else {
        "false"
    }
}

fn base_str(b: Base) -> (r: &'static str)
    ensures
        r@ == base_name(b),
{
    match b {
        Base::Binary => "Binary",
        Base::Octal => "Octal",
        Base::Decimal => "Decimal",
        Base::Hex => "Hex",
    }
}

fn bit_str(b: LogicBit) -> (r: &'static str)
    ensures
        r@ == bit_name(b),
{
    match b {
        LogicBit::Zero => "Zero",
        LogicBit::One => "One",
        LogicBit::X => "X",
        LogicBit::Z => "Z",
    }
}

fn kind_str(k: DeclKind) -> (r: &'static str)
    ensures
        r@ == kind_name(k),
{
    match k {
        DeclKind::Reg => "Reg",
        DeclKind::Integer => "Integer",
        DeclKind::Real => "Real",
    }
}

fn unary_variant(op: UnaryOp) -> (r: &'static str)
    ensures
        r@ == unary_name(op),
{
    match op {
        UnaryOp::Plus => "Plus",
        UnaryOp::Minus => "Minus",
        UnaryOp::LogicalNot => "LogicalNot",
        UnaryOp::BitwiseNot => "BitwiseNot",
        UnaryOp::ReductionAnd => "ReductionAnd",
        UnaryOp::ReductionNand => "ReductionNand",
        UnaryOp::ReductionOr => "ReductionOr",
        UnaryOp::ReductionNor => "ReductionNor",
        UnaryOp::ReductionXor => "ReductionXor",
        UnaryOp::ReductionXnor => "ReductionXnor",
    }
}

fn binary_variant(op: BinaryOp) -> (r: &'static str)
    ensures
        r@ == binary_name(op),
{
    match op {
        BinaryOp::Add => "Add",
        BinaryOp::Subtract => "Subtract",
        BinaryOp::Multiply => "Multiply",
        BinaryOp::Divide => "Divide",
        BinaryOp::Modulus => "Modulus",
        BinaryOp::Power => "Power",
        BinaryOp::LessThan => "LessThan",
        BinaryOp::GreaterThan => "GreaterThan",
        BinaryOp::LessThanOrEqual => "LessThanOrEqual",
        BinaryOp::GreaterThanOrEqual => "GreaterThanOrEqual",
        BinaryOp::Equal => "Equal",
        BinaryOp::NotEqual => "NotEqual",
        BinaryOp::CaseEqual => "CaseEqual",
        BinaryOp::CaseNotEqual => "CaseNotEqual",
        BinaryOp::LogicalAnd => "LogicalAnd",
        BinaryOp::LogicalOr => "LogicalOr",
        BinaryOp::BitwiseAnd => "BitwiseAnd",
        BinaryOp::BitwiseOr => "BitwiseOr",
        BinaryOp::BitwiseXor => "BitwiseXor",
        BinaryOp::BitwiseXnor => "BitwiseXnor",
        BinaryOp::LogicalShiftLeft => "LogicalShiftLeft",
        BinaryOp::LogicalShiftRight => "LogicalShiftRight",
        BinaryOp::ArithmeticShiftLeft => "ArithmeticShiftLeft",
        BinaryOp::ArithmeticShiftRight => "ArithmeticShiftRight",
    }
}

fn digit(d: usize) -> (c: char)
    requires
        d < 10,
    ensures
        c == digit_char(d as nat),
{
    match d {
        0 => '0',
        1 => '1',
        2 => '2',
        3 => '3',
        4 => '4',
        5 => '5',
        6 => '6',
        7 => '7',
        8 => '8',
        _ => '9',
    }
}

/// Decimal digits of `n`.
pub fn decimal_text(n: usize) -> (r: String)
    ensures
        r@ == decimal_string(n as nat),
    decreases n,
{
    if n < 10 {
        let mut r = String::new();
        push_char(&mut r, digit(n));
        assert(r@ =~= seq![digit_char(n as nat)]);
        return r;
    }
    let mut r = decimal_text(n / 10);
    push_char(&mut r, digit(n % 10));
    r
}

fn render_bits(bits: &Vec<LogicBit>, ind: &String) -> (r: String)
    ensures
        r@ == list_of(
            items_of(bits@.map_values(|b: LogicBit| bit_name(b)), ind@),
            bits@.len(),
            ind@,
        ),
{
    let ghost names = bits@.map_values(|b: LogicBit| bit_name(b));
    let mut items = String::new();
    let mut k: usize = 0;
    assert(names.take(0) =~= Seq::<Seq<char>>::empty());
    while k < bits.len()
        invariant
            k <= bits@.len(),
            names == bits@.map_values(|b: LogicBit| bit_name(b)),
            items@ == items_of(names.take(k as int), ind@),
        decreases bits@.len() - k,
    {
        let x = owned(bit_str(bits[k]));
        append_str(&mut items, s_item(&x, ind).as_str());
        assert(names.take(k + 1).drop_last() =~= names.take(k as int));
        k = k + 1;
    }
    assert(names.take(k as int) =~= names);
    s_list(&items, bits.len(), ind)
}

fn render_bytes(b: &Vec<u8>, ind: &String) -> (r: String)
    ensures
        r@ == r_bytes(b@, ind@),
{
    let ghost texts = b@.map_values(|x: u8| decimal_string(x as nat));
    let mut items = String::new();
    let mut k: usize = 0;
    assert(texts.take(0) =~= Seq::<Seq<char>>::empty());
    while k < b.len()
        invariant
            k <= b@.len(),
            texts == b@.map_values(|x: u8| decimal_string(x as nat)),
            items@ == items_of(texts.take(k as int), ind@),
        decreases b@.len() - k,
    {
        let x = decimal_text(b[k] as usize);
        append_str(&mut items, s_item(&x, ind).as_str());
        assert(texts.take(k + 1).drop_last() =~= texts.take(k as int));
        k = k + 1;
    }
    assert(texts.take(k as int) =~= texts);
    s_list(&items, b.len(), ind)
}

fn render_literal(l: &LiteralSpec, ind: &String) -> (r: String)
    ensures
        r@ == r_literal(l@, ind@),
{
    let d = s_deeper(ind);
    let payload = match &l.payload {
        LiteralPayload::Numeric { magnitude } => {
            let m = biguint_decimal(magnitude);
            s_struct("Numeric", &s_field("magnitude", &m, &d), &d)
        },
        LiteralPayload::Bits { low_bits, fill } => {
            let dd = s_deeper(&d);
            let mut fs = s_field("low_bits", &render_bits(low_bits, &dd), &d);
            append_str(&mut fs, s_field("fill", &owned(bit_str(*fill)), &d).as_str());
            s_struct("Bits", &fs, &d)
        },
    };
    let mut fs = s_field("width", &decimal_text(l.width), ind);
    append_str(&mut fs, s_field("signed", &owned(bool_str(l.signed)), ind).as_str());
    append_str(&mut fs, s_field("base", &owned(base_str(l.base)), ind).as_str());
    append_str(&mut fs, s_field("unsized_literal", &owned(bool_str(l.unsized_literal)), ind).as_str());
    append_str(&mut fs, s_field("payload", &payload, ind).as_str());
    s_struct("LiteralSpec", &fs, ind)
}

pub open spec fn view_opt_select(o: Option<Box<SelectKind>>) -> Option<SSelect> {
    match o {
        Some(k) => Some(view_select(*k)),
        None => None,
    }
}

fn render_expr(e: &Expr, ind: &String) -> (r: String)
    ensures
        r@ == r_expr(view_expr(*e), ind@),
    decreases e,
{
    let d = s_deeper(ind);
    match e {
        Expr::Literal(l) => s_tuple1("Literal", &render_literal(l, &d), ind),
        Expr::StringLiteral(b) => s_tuple1("StringLiteral", &render_bytes(b, &d), ind),
        Expr::RealLiteral(t) => s_tuple1("RealLiteral", t, ind),
        Expr::Grouped(i) => s_tuple1("Grouped", &render_expr(&**i, &d), ind),
        Expr::Unary { op, expr } => {
            let mut fs = s_field("op", &owned(unary_variant(*op)), ind);
            append_str(&mut fs, s_field("expr", &render_expr(&**expr, &d), ind).as_str());
            s_struct("Unary", &fs, ind)
        },
        Expr::Binary { op, lhs, rhs } => {
            let mut fs = s_field("op", &owned(binary_variant(*op)), ind);
            append_str(&mut fs, s_field("lhs", &render_expr(&**lhs, &d), ind).as_str());
            append_str(&mut fs, s_field("rhs", &render_expr(&**rhs, &d), ind).as_str());
            s_struct("Binary", &fs, ind)
        },
        Expr::Conditional { cond, then_expr, else_expr } => {
            let mut fs = s_field("cond", &render_expr(&**cond, &d), ind);
            append_str(&mut fs, s_field("then_expr", &render_expr(&**then_expr, &d), ind).as_str());
            append_str(&mut fs, s_field("else_expr", &render_expr(&**else_expr, &d), ind).as_str());
            s_struct("Conditional", &fs, ind)
        },
        Expr::Concatenation { items } => {
            proof {
                lemma_view_exprs(items@);
            }
            let list = s_list(&render_items(items, &d), items.len(), &d);
            s_struct("Concatenation", &s_field("items", &list, ind), ind)
        },
        Expr::Replication { count, items } => {
            proof {
                lemma_view_exprs(items@);
            }
            let mut fs = s_field("count", &render_expr(&**count, &d), ind);
            let list = s_list(&render_items(items, &d), items.len(), &d);
            append_str(&mut fs, s_field("items", &list, ind).as_str());
            s_struct("Replication", &fs, ind)
        },
        Expr::SystemCall { name, args } => {
            proof {
                lemma_view_args_len(args@);
            }
            let mut fs = s_field("name", &s_quoted(name), ind);
            let list = s_list(&render_args(args, &d), args.len(), &d);
            append_str(&mut fs, s_field("args", &list, ind).as_str());
            s_struct("SystemCall", &fs, ind)
        },
        Expr::Identifier(n) => s_tuple1("Identifier", &s_quoted(n), ind),
        Expr::Select { name, kind, inner } => {
            let mut fs = s_field("name", &s_quoted(name), ind);
            append_str(&mut fs, s_field("kind", &render_select(kind, &d), ind).as_str());
            append_str(&mut fs, s_field("inner", &render_opt_select(inner, &d), ind).as_str());
            s_struct("Select", &fs, ind)
        },
        Expr::Truncated => owned("Truncated"),
    }
}

proof fn lemma_view_args_len(s: Seq<SystemArg>)
    ensures
        view_args(s).len() == s.len(),
    decreases s.len(),
{
    if s.len() > 0 {
        lemma_view_args_len(s.drop_last());
    }
}

fn render_items(items: &Vec<Expr>, ind: &String) -> (r: String)
    ensures
        r@ == r_items(view_exprs(items@), ind@),
    decreases items,
{
    let ghost vs = view_exprs(items@);
    proof {
        lemma_view_exprs(items@);
    }
    let d = s_deeper(ind);
    let mut out = String::new();
    let mut k: usize = 0;
    assert(vs.take(0) =~= Seq::<SExpr>::empty());
    while k < items.len()
        invariant
            k <= items@.len() == vs.len(),
            vs == view_exprs(items@),
            forall|i: int| 0 <= i < items@.len() ==> #[trigger] vs[i] == view_expr(items@[i]),
            d@ == deeper(ind@),
            out@ == r_items(vs.take(k as int), ind@),
        decreases items@.len() - k,
    {
        proof {
            assert(decreases_to!(items => items@));
            assert(decreases_to!(items@ => items@[k as int]));
        }
        let x = render_expr(&items[k], &d);
        append_str(&mut out, s_item(&x, ind).as_str());
        assert(vs.take(k + 1).drop_last() =~= vs.take(k as int));
        k = k + 1;
    }
    assert(vs.take(k as int) =~= vs);
    out
}

proof fn lemma_view_args(s: Seq<SystemArg>, k: int)
    requires
        0 <= k < s.len(),
    ensures
        view_args(s.take(k + 1)) == view_args(s.take(k)).push(
            match s[k] {
                SystemArg::Expr(e) => SArg::Expr(view_expr(e)),
                SystemArg::Null => SArg::Null,
            },
        ),
{
    assert(s.take(k + 1).drop_last() =~= s.take(k));
}

fn render_args(args: &Vec<SystemArg>, ind: &String) -> (r: String)
    ensures
        r@ == r_args(view_args(args@), ind@),
    decreases args,
{
    let d = s_deeper(ind);
    let dd = s_deeper(&d);
    let mut out = String::new();
    let mut k: usize = 0;
    assert(args@.take(0) =~= Seq::<SystemArg>::empty());
    while k < args.len()
        invariant
            k <= args@.len(),
            d@ == deeper(ind@),
            dd@ == deeper(d@),
            out@ == r_args(view_args(args@.take(k as int)), ind@),
        decreases args@.len() - k,
    {
        let x = match &args[k] {
            SystemArg::Expr(e) => {
                proof {
                    assert(decreases_to!(args => args@));
                    assert(decreases_to!(args@ => args@[k as int]));
                    assert(decreases_to!(args@[k as int] => *e));
                }
                s_tuple1("Expr", &render_expr(e, &dd), &d)
            },
            SystemArg::Null => owned("Null"),
        };
        append_str(&mut out, s_item(&x, ind).as_str());
        proof {
            lemma_view_args(args@, k as int);
            let v = view_args(args@.take(k + 1));
            assert(v.drop_last() =~= view_args(args@.take(k as int)));
        }
        k = k + 1;
    }
    assert(args@.take(k as int) =~= args@);
    out
}

fn render_select(k: &SelectKind, ind: &String) -> (r: String)
    ensures
        r@ == r_select(view_select(*k), ind@),
    decreases k,
{
    let d = s_deeper(ind);
    match k {
        SelectKind::Bit { index } => s_struct(
            "Bit",
            &s_field("index", &render_expr(&**index, &d), ind),
            ind,
        ),
        SelectKind::PartConst { msb, lsb } => {
            let mut fs = s_field("msb", &render_expr(&**msb, &d), ind);
            append_str(&mut fs, s_field("lsb", &render_expr(&**lsb, &d), ind).as_str());
            s_struct("PartConst", &fs, ind)
        },
        SelectKind::PartIndexedUp { base, width } => {
            let mut fs = s_field("base", &render_expr(&**base, &d), ind);
            append_str(&mut fs, s_field("width", &render_expr(&**width, &d), ind).as_str());
            s_struct("PartIndexedUp", &fs, ind)
        },
        SelectKind::PartIndexedDown { base, width } => {
            let mut fs = s_field("base", &render_expr(&**base, &d), ind);
            append_str(&mut fs, s_field("width", &render_expr(&**width, &d), ind).as_str());
            s_struct("PartIndexedDown", &fs, ind)
        },
    }
}

fn render_opt_select(o: &Option<Box<SelectKind>>, ind: &String) -> (r: String)
    ensures
        r@ == r_opt_select(view_opt_select(*o), ind@),
    decreases o,
{
    match o {
        Some(k) => {
            let d = s_deeper(ind);
            s_tuple1("Some", &render_select(&**k, &d), ind)
        },
        None => owned("None"),
    }
}

fn render_opt_expr(o: &Option<Expr>, ind: &String) -> (r: String)
    ensures
        r@ == r_opt_expr(view_opt_expr(*o), ind@),
{
    match o {
        Some(x) => {
            let d = s_deeper(ind);
            s_tuple1("Some", &render_expr(x, &d), ind)
        },
        None => owned("None"),
    }
}

fn render_opt_pair(o: &Option<(Expr, Expr)>, ind: &String) -> (r: String)
    ensures
        r@ == r_opt_pair(view_opt_pair(*o), ind@),
{
    match o {
        Some((a, b)) => {
            let d = s_deeper(ind);
            let dd = s_deeper(&d);
            let mut pair = owned("(");
            append_str(&mut pair, s_item(&render_expr(a, &dd), &d).as_str());
            append_str(&mut pair, s_item(&render_expr(b, &dd), &d).as_str());
            append_str(&mut pair, s_nl(&d).as_str());
            append_str(&mut pair, ")");
            s_tuple1("Some", &pair, ind)
        },
        None => owned("None"),
    }
}

fn render_decl_name(n: &DeclName, ind: &String) -> (r: String)
    ensures
        r@ == r_decl_name(view_decl_name(*n), ind@),
{
    let d = s_deeper(ind);
    let mut fs = s_field("name", &s_quoted(&n.name), ind);
    append_str(&mut fs, s_field("init", &render_opt_expr(&n.init, &d), ind).as_str());
    append_str(&mut fs, s_field("dim", &render_opt_pair(&n.dim, &d), ind).as_str());
    s_struct("DeclName", &fs, ind)
}

proof fn lemma_view_lvalues(s: Seq<LValue>)
    ensures
        view_lvalues(s).len() == s.len(),
        forall|i: int| 0 <= i < s.len() ==> #[trigger] view_lvalues(s)[i] == view_lvalue(s[i]),
    decreases s.len(),
{
    if s.len() > 0 {
        lemma_view_lvalues(s.drop_last());
    }
}

fn render_lvalue(l: &LValue, ind: &String) -> (r: String)
    ensures
        r@ == r_lvalue(view_lvalue(*l), ind@),
    decreases l,
{
    let d = s_deeper(ind);
    match l {
        LValue::Name(n) => s_tuple1("Name", &s_quoted(n), ind),
        LValue::Select { name, kind, inner } => {
            let mut fs = s_field("name", &s_quoted(name), ind);
            append_str(&mut fs, s_field("kind", &render_select(kind, &d), ind).as_str());
            append_str(&mut fs, s_field("inner", &render_opt_select(inner, &d), ind).as_str());
            s_struct("Select", &fs, ind)
        },
        LValue::Concat(items) => {
            proof {
                lemma_view_lvalues(items@);
            }
            let list = s_list(&render_lv_items(items, &d), items.len(), &d);
            s_tuple1("Concat", &list, ind)
        },
        LValue::Truncated => owned("Truncated"),
    }
}

fn render_lv_items(items: &Vec<LValue>, ind: &String) -> (r: String)
    ensures
        r@ == r_lv_items(view_lvalues(items@), ind@),
    decreases items,
{
    let ghost vs = view_lvalues(items@);
    proof {
        lemma_view_lvalues(items@);
    }
    let d = s_deeper(ind);
    let mut out = String::new();
    let mut k: usize = 0;
    assert(vs.take(0) =~= Seq::<SLValue>::empty());
    while k < items.len()
        invariant
            k <= items@.len() == vs.len(),
            vs == view_lvalues(items@),
            forall|i: int| 0 <= i < items@.len() ==> #[trigger] vs[i] == view_lvalue(items@[i]),
            d@ == deeper(ind@),
            out@ == r_lv_items(vs.take(k as int), ind@),
        decreases items@.len() - k,
    {
        proof {
            assert(decreases_to!(items => items@));
            assert(decreases_to!(items@ => items@[k as int]));
        }
        let x = render_lvalue(&items[k], &d);
        append_str(&mut out, s_item(&x, ind).as_str());
        assert(vs.take(k + 1).drop_last() =~= vs.take(k as int));
        k = k + 1;
    }
    assert(vs.take(k as int) =~= vs);
    out
}

fn render_stmt(s: &Stmt, ind: &String) -> (r: String)
    ensures
        r@ == r_stmt(view_stmt(*s), ind@),
{
    let d = s_deeper(ind);
    match s {
        Stmt::Expr(e) => s_tuple1("Expr", &render_expr(e, &d), ind),
        Stmt::Decl { kind, signed, range, names } => {
            let dd = s_deeper(&d);
            let ghost texts = view_decl_names(names@).map_values(
                |n: SDeclName| r_decl_name(n, deeper(d@)),
            );
            let mut items = String::new();
            let mut k: usize = 0;
            assert(texts.take(0) =~= Seq::<Seq<char>>::empty());
            while k < names.len()
                invariant
                    k <= names@.len() == texts.len(),
                    texts == view_decl_names(names@).map_values(
                        |n: SDeclName| r_decl_name(n, deeper(d@)),
                    ),
                    dd@ == deeper(d@),
                    items@ == items_of(texts.take(k as int), d@),
                decreases names@.len() - k,
            {
                let x = render_decl_name(&names[k], &dd);
                append_str(&mut items, s_item(&x, &d).as_str());
                assert(texts.take(k + 1).drop_last() =~= texts.take(k as int));
                k = k + 1;
            }
            assert(texts.take(k as int) =~= texts);
            let mut fs = s_field("kind", &owned(kind_str(*kind)), ind);
            append_str(&mut fs, s_field("signed", &owned(bool_str(*signed)), ind).as_str());
            append_str(&mut fs, s_field("range", &render_opt_pair(range, &d), ind).as_str());
            let list = s_list(&items, names.len(), &d);
            append_str(&mut fs, s_field("names", &list, ind).as_str());
            s_struct("Decl", &fs, ind)
        },
        Stmt::Assign { lvalue, rhs } => {
            let mut fs = s_field("lvalue", &render_lvalue(lvalue, &d), ind);
            append_str(&mut fs, s_field("rhs", &render_expr(rhs, &d), ind).as_str());
            s_struct("Assign", &fs, ind)
        },
    }
}

/// The statements in the pretty multi-line layout, starting at the left margin.
pub fn render_stmts(stmts: &Vec<Stmt>) -> (r: String)
    ensures
        r@ == r_stmts(view_stmts(stmts@)),
{
    let ind = String::new();
    let d = s_deeper(&ind);
    let ghost texts = view_stmts(stmts@).map_values(|x: SStmt| r_stmt(x, deeper(Seq::empty())));
    let mut items = String::new();
    let mut k: usize = 0;
    assert(texts.take(0) =~= Seq::<Seq<char>>::empty());
    assert(ind@ =~= Seq::<char>::empty());
    while k < stmts.len()
        invariant
            k <= stmts@.len() == texts.len(),
            texts == view_stmts(stmts@).map_values(|x: SStmt| r_stmt(x, deeper(Seq::empty()))),
            ind@ == Seq::<char>::empty(),
            d@ == deeper(ind@),
            items@ == items_of(texts.take(k as int), ind@),
        decreases stmts@.len() - k,
    {
        let x = render_stmt(&stmts[k], &d);
        append_str(&mut items, s_item(&x, &ind).as_str());
        assert(texts.take(k + 1).drop_last() =~= texts.take(k as int));
        k = k + 1;
    }
    assert(texts.take(k as int) =~= texts);
    s_list(&items, stmts.len(), &ind)
}

} // verus!

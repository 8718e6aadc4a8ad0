//! The system identifiers (`$name`) the calculator knows: math functions, real
//! conversions, sign and base casts, and the system tasks; and the static check
//! of a `$display` format string.
use crate::ast::Base;
use crate::bignum::decimal_string;
use crate::render::decimal_text;
use crate::text::{append_str, owned, push_char};
use vstd::prelude::*;

verus! {

/// Conversions between real and integer values.
#[derive(Clone, Copy, Debug, PartialEq, Eq, Structural)]
pub enum RealConversionKind {
    RealToInteger,
    IntegerToReal,
    RealToBits,
    BitsToReal,
}

/// Math system functions (LRM 17.11).
#[derive(Clone, Copy, Debug, PartialEq, Eq, Structural)]
pub enum MathFunctionKind {
    Clog2,
    Ln,
    Log10,
    Exp,
    Sqrt,
    Floor,
    Ceil,
    Sin,
    Cos,
    Tan,
    Asin,
    Acos,
    Atan,
    Sinh,
    Cosh,
    Tanh,
    Asinh,
    Acosh,
    Atanh,
    Pow,
    Atan2,
    Hypot,
}

/// System tasks: `$finish`, `$stop` and the `$display` / `$write` family.
#[derive(Clone, Copy, Debug, PartialEq, Eq, Structural)]
pub enum SystemTask {
    Finish,
    Stop,
    Display,
    DisplayB,
    DisplayO,
    DisplayH,
    Write,
    WriteB,
    WriteO,
    WriteH,
}

/// The system functions other than the tasks.
#[derive(Clone, Copy, Debug, PartialEq, Eq, Structural)]
pub enum SystemFunction {
    Math(MathFunctionKind),
    RealConversion(RealConversionKind),
    SignCast { signed: bool },
    BaseCast(Base),
}

/// What a system identifier names.
#[derive(Clone, Copy, Debug, PartialEq, Eq, Structural)]
pub enum SystemCallKind {
    Function(SystemFunction),
    Task(SystemTask),
}

/// The name of each math function.
pub open spec fn math_name(k: MathFunctionKind) -> Seq<char> {
    match k {
        MathFunctionKind::Clog2 => "$clog2"@,
        MathFunctionKind::Ln => "$ln"@,
        MathFunctionKind::Log10 => "$log10"@,
        MathFunctionKind::Exp => "$exp"@,
        MathFunctionKind::Sqrt => "$sqrt"@,
        MathFunctionKind::Floor => "$floor"@,
        MathFunctionKind::Ceil => "$ceil"@,
        MathFunctionKind::Sin => "$sin"@,
        MathFunctionKind::Cos => "$cos"@,
        MathFunctionKind::Tan => "$tan"@,
        MathFunctionKind::Asin => "$asin"@,
        MathFunctionKind::Acos => "$acos"@,
        MathFunctionKind::Atan => "$atan"@,
        MathFunctionKind::Sinh => "$sinh"@,
        MathFunctionKind::Cosh => "$cosh"@,
        MathFunctionKind::Tanh => "$tanh"@,
        MathFunctionKind::Asinh => "$asinh"@,
        MathFunctionKind::Acosh => "$acosh"@,
        MathFunctionKind::Atanh => "$atanh"@,
        MathFunctionKind::Pow => "$pow"@,
        MathFunctionKind::Atan2 => "$atan2"@,
        MathFunctionKind::Hypot => "$hypot"@,
    }
}

/// The math function named `n`, if any.
pub open spec fn math_kind_of(n: Seq<char>) -> Option<MathFunctionKind> {
    if n == "$clog2"@ {
        Some(MathFunctionKind::Clog2)
    } else if n == "$ln"@ {
        Some(MathFunctionKind::Ln)
    } else if n == "$log10"@ {
        Some(MathFunctionKind::Log10)
    } else if n == "$exp"@ {
        Some(MathFunctionKind::Exp)
    } else if n == "$sqrt"@ {
        Some(MathFunctionKind::Sqrt)
    } else if n == "$floor"@ {
        Some(MathFunctionKind::Floor)
    } else if n == "$ceil"@ {
        Some(MathFunctionKind::Ceil)
    } else if n == "$sin"@ {
        Some(MathFunctionKind::Sin)
    } else if n == "$cos"@ {
        Some(MathFunctionKind::Cos)
    } else if n == "$tan"@ {
        Some(MathFunctionKind::Tan)
    } else if n == "$asin"@ {
        Some(MathFunctionKind::Asin)
    } else if n == "$acos"@ {
        Some(MathFunctionKind::Acos)
    } else if n == "$atan"@ {
        Some(MathFunctionKind::Atan)
    } else if n == "$sinh"@ {
        Some(MathFunctionKind::Sinh)
    } else if n == "$cosh"@ {
        Some(MathFunctionKind::Cosh)
    } else if n == "$tanh"@ {
        Some(MathFunctionKind::Tanh)
    } else if n == "$asinh"@ {
        Some(MathFunctionKind::Asinh)
    } else if n == "$acosh"@ {
        Some(MathFunctionKind::Acosh)
    } else if n == "$atanh"@ {
        Some(MathFunctionKind::Atanh)
    } else if n == "$pow"@ {
        Some(MathFunctionKind::Pow)
    } else if n == "$atan2"@ {
        Some(MathFunctionKind::Atan2)
    } else if n == "$hypot"@ {
        Some(MathFunctionKind::Hypot)
    } else {
        None
    }
}

/// The name of each system task.
pub open spec fn task_name(t: SystemTask) -> Seq<char> {
    match t {
        SystemTask::Finish => "$finish"@,
        SystemTask::Stop => "$stop"@,
        SystemTask::Display => "$display"@,
        SystemTask::DisplayB => "$displayb"@,
        SystemTask::DisplayO => "$displayo"@,
        SystemTask::DisplayH => "$displayh"@,
        SystemTask::Write => "$write"@,
        SystemTask::WriteB => "$writeb"@,
        SystemTask::WriteO => "$writeo"@,
        SystemTask::WriteH => "$writeh"@,
    }
}

/// The system task named `n`, if any.
pub open spec fn task_of(n: Seq<char>) -> Option<SystemTask> {
    if n == "$finish"@ {
        Some(SystemTask::Finish)
    } else if n == "$stop"@ {
        Some(SystemTask::Stop)
    } else if n == "$display"@ {
        Some(SystemTask::Display)
    } else if n == "$displayb"@ {
        Some(SystemTask::DisplayB)
    } else if n == "$displayo"@ {
        Some(SystemTask::DisplayO)
    } else if n == "$displayh"@ {
        Some(SystemTask::DisplayH)
    } else if n == "$write"@ {
        Some(SystemTask::Write)
    } else if n == "$writeb"@ {
        Some(SystemTask::WriteB)
    } else if n == "$writeo"@ {
        Some(SystemTask::WriteO)
    } else if n == "$writeh"@ {
        Some(SystemTask::WriteH)
    } else {
        None
    }
}

fn name_is(a: &str, b: &str) -> (r: bool)
    ensures
        r == (a@ == b@),
{
    let x = owned(a);
    crate::parser::str_eq(&x, b)
}

impl MathFunctionKind {
    /// The math function called `name`.
    pub fn from_name(name: &str) -> (r: Option<Self>)
        ensures
            r == math_kind_of(name@),
    {
        if name_is(name, "$clog2") {
            Some(MathFunctionKind::Clog2)
        } else if name_is(name, "$ln") {
            Some(MathFunctionKind::Ln)
        } else if name_is(name, "$log10") {
            Some(MathFunctionKind::Log10)
        } else if name_is(name, "$exp") {
            Some(MathFunctionKind::Exp)
        } else if name_is(name, "$sqrt") {
            Some(MathFunctionKind::Sqrt)
        } else if name_is(name, "$floor") {
            Some(MathFunctionKind::Floor)
        } else if name_is(name, "$ceil") {
            Some(MathFunctionKind::Ceil)
        } else if name_is(name, "$sin") {
            Some(MathFunctionKind::Sin)
        } else if name_is(name, "$cos") {
            Some(MathFunctionKind::Cos)
        } else if name_is(name, "$tan") {
            Some(MathFunctionKind::Tan)
        } else if name_is(name, "$asin") {
            Some(MathFunctionKind::Asin)
        } else if name_is(name, "$acos") {
            Some(MathFunctionKind::Acos)
        } else if name_is(name, "$atan") {
            Some(MathFunctionKind::Atan)
        } else if name_is(name, "$sinh") {
            Some(MathFunctionKind::Sinh)
        } else if name_is(name, "$cosh") {
            Some(MathFunctionKind::Cosh)
        } else if name_is(name, "$tanh") {
            Some(MathFunctionKind::Tanh)
        } else if name_is(name, "$asinh") {
            Some(MathFunctionKind::Asinh)
        } else if name_is(name, "$acosh") {
            Some(MathFunctionKind::Acosh)
        } else if name_is(name, "$atanh") {
            Some(MathFunctionKind::Atanh)
        } else if name_is(name, "$pow") {
            Some(MathFunctionKind::Pow)
        } else if name_is(name, "$atan2") {
            Some(MathFunctionKind::Atan2)
        } else if name_is(name, "$hypot") {
            Some(MathFunctionKind::Hypot)
        } else {
            None
        }
    }

    /// The name of this math function.
    pub fn name(self) -> (r: &'static str)
        ensures
            r@ == math_name(self),
    {
        match self {
            MathFunctionKind::Clog2 => "$clog2",
            MathFunctionKind::Ln => "$ln",
            MathFunctionKind::Log10 => "$log10",
            MathFunctionKind::Exp => "$exp",
            MathFunctionKind::Sqrt => "$sqrt",
            MathFunctionKind::Floor => "$floor",
            MathFunctionKind::Ceil => "$ceil",
            MathFunctionKind::Sin => "$sin",
            MathFunctionKind::Cos => "$cos",
            MathFunctionKind::Tan => "$tan",
            MathFunctionKind::Asin => "$asin",
            MathFunctionKind::Acos => "$acos",
            MathFunctionKind::Atan => "$atan",
            MathFunctionKind::Sinh => "$sinh",
            MathFunctionKind::Cosh => "$cosh",
            MathFunctionKind::Tanh => "$tanh",
            MathFunctionKind::Asinh => "$asinh",
            MathFunctionKind::Acosh => "$acosh",
            MathFunctionKind::Atanh => "$atanh",
            MathFunctionKind::Pow => "$pow",
            MathFunctionKind::Atan2 => "$atan2",
            MathFunctionKind::Hypot => "$hypot",
        }
    }

    /// Number of arguments: two for `$pow`, `$atan2` and `$hypot`, else one.
    pub fn arity(self) -> (r: usize)
        ensures
            r == (if self == MathFunctionKind::Pow || self == MathFunctionKind::Atan2 || self
                == MathFunctionKind::Hypot {
                2usize
            } else {
                1usize
            }),
    {
        match self {
            MathFunctionKind::Pow | MathFunctionKind::Atan2 | MathFunctionKind::Hypot => 2,
            _ => 1,
        }
    }

    /// Every math function but `$clog2` yields a real.
    pub fn is_real_result(self) -> (r: bool)
        ensures
            r == (self != MathFunctionKind::Clog2),
    {
        match self {
            MathFunctionKind::Clog2 => false,
            _ => true,
        }
    }
}

impl SystemTask {
    /// The system task called `name`.
    pub fn from_name(name: &str) -> (r: Option<Self>)
        ensures
            r == task_of(name@),
    {
        if name_is(name, "$finish") {
            Some(SystemTask::Finish)
        } else if name_is(name, "$stop") {
            Some(SystemTask::Stop)
        } else if name_is(name, "$display") {
            Some(SystemTask::Display)
        } else if name_is(name, "$displayb") {
            Some(SystemTask::DisplayB)
        } else if name_is(name, "$displayo") {
            Some(SystemTask::DisplayO)
        } else if name_is(name, "$displayh") {
            Some(SystemTask::DisplayH)
        } else if name_is(name, "$write") {
            Some(SystemTask::Write)
        } else if name_is(name, "$writeb") {
            Some(SystemTask::WriteB)
        } else if name_is(name, "$writeo") {
            Some(SystemTask::WriteO)
        } else if name_is(name, "$writeh") {
            Some(SystemTask::WriteH)
        } else {
            None
        }
    }

    /// The radix a task prints unformatted integers in (LRM 17.1): decimal
    /// for `$display` / `$write`, and binary, octal or hex for the `b` / `o` /
    /// `h` variants.
    pub fn default_base(self) -> (r: Base)
        ensures
            r == match self {
                SystemTask::DisplayB | SystemTask::WriteB => Base::Binary,
                SystemTask::DisplayO | SystemTask::WriteO => Base::Octal,
                SystemTask::DisplayH | SystemTask::WriteH => Base::Hex,
                _ => Base::Decimal,
            },
    {
        match self {
            SystemTask::Display | SystemTask::Write => Base::Decimal,
            SystemTask::DisplayB | SystemTask::WriteB => Base::Binary,
            SystemTask::DisplayO | SystemTask::WriteO => Base::Octal,
            SystemTask::DisplayH | SystemTask::WriteH => Base::Hex,
            SystemTask::Finish | SystemTask::Stop => Base::Decimal,
        }
    }

    /// Only the `$display` family ends its output with a newline.
    pub fn appends_newline(self) -> (r: bool)
        ensures
            r == (self == SystemTask::Display || self == SystemTask::DisplayB || self
                == SystemTask::DisplayO || self == SystemTask::DisplayH),
    {
        match self {
            SystemTask::Display | SystemTask::DisplayB | SystemTask::DisplayO
            | SystemTask::DisplayH => true,
            _ => false,
        }
    }
}

/// What a system identifier names.
pub open spec fn classify(n: Seq<char>) -> Result<SystemCallKind, Seq<char>> {
    match task_of(n) {
        Some(t) => Ok(SystemCallKind::Task(t)),
        None => if n == "$signed"@ {
            Ok(SystemCallKind::Function(SystemFunction::SignCast { signed: true }))
        } else if n == "$unsigned"@ {
            Ok(SystemCallKind::Function(SystemFunction::SignCast { signed: false }))
        } else if n == "$bin"@ {
            Ok(SystemCallKind::Function(SystemFunction::BaseCast(Base::Binary)))
        } else if n == "$oct"@ {
            Ok(SystemCallKind::Function(SystemFunction::BaseCast(Base::Octal)))
        } else if n == "$dec"@ {
            Ok(SystemCallKind::Function(SystemFunction::BaseCast(Base::Decimal)))
        } else if n == "$hex"@ {
            Ok(SystemCallKind::Function(SystemFunction::BaseCast(Base::Hex)))
        } else if n == "$rtoi"@ {
            Ok(
                SystemCallKind::Function(
                    SystemFunction::RealConversion(RealConversionKind::RealToInteger),
                ),
            )
        } else if n == "$itor"@ {
            Ok(
                SystemCallKind::Function(
                    SystemFunction::RealConversion(RealConversionKind::IntegerToReal),
                ),
            )
        } else if n == "$realtobits"@ {
            Ok(
                SystemCallKind::Function(
                    SystemFunction::RealConversion(RealConversionKind::RealToBits),
                ),
            )
        } else if n == "$bitstoreal"@ {
            Ok(
                SystemCallKind::Function(
                    SystemFunction::RealConversion(RealConversionKind::BitsToReal),
                ),
            )
        } else {
            match math_kind_of(n) {
                Some(k) => Ok(SystemCallKind::Function(SystemFunction::Math(k))),
                None => Err("unknown system identifier: "@ + n),
            }
        },
    }
}

/// Resolves a system identifier to the task or function it names.
pub fn classify_system_call(name: &str) -> (r: Result<SystemCallKind, String>)
    ensures
        match classify(name@) {
            Ok(k) => r == Ok::<SystemCallKind, String>(k),
            Err(m) => r matches Err(x) && x@ == m,
        },
{
    match SystemTask::from_name(name) {
        Some(task) => {
            return Ok(SystemCallKind::Task(task));
        },
        None => {},
    }
    if name_is(name, "$signed") {
        Ok(SystemCallKind::Function(SystemFunction::SignCast { signed: true }))
    } else if name_is(name, "$unsigned") {
        Ok(SystemCallKind::Function(SystemFunction::SignCast { signed: false }))
    } else if name_is(name, "$bin") {
        Ok(SystemCallKind::Function(SystemFunction::BaseCast(Base::Binary)))
    } else if name_is(name, "$oct") {
        Ok(SystemCallKind::Function(SystemFunction::BaseCast(Base::Octal)))
    } else if name_is(name, "$dec") {
        Ok(SystemCallKind::Function(SystemFunction::BaseCast(Base::Decimal)))
    } else if name_is(name, "$hex") {
        Ok(SystemCallKind::Function(SystemFunction::BaseCast(Base::Hex)))
    } else if name_is(name, "$rtoi") {
        Ok(
            SystemCallKind::Function(
                SystemFunction::RealConversion(RealConversionKind::RealToInteger),
            ),
        )
    } else if name_is(name, "$itor") {
        Ok(
            SystemCallKind::Function(
                SystemFunction::RealConversion(RealConversionKind::IntegerToReal),
            ),
        )
    } else if name_is(name, "$realtobits") {
        Ok(SystemCallKind::Function(SystemFunction::RealConversion(RealConversionKind::RealToBits)))
    } else if name_is(name, "$bitstoreal") {
        Ok(SystemCallKind::Function(SystemFunction::RealConversion(RealConversionKind::BitsToReal)))
    } else {
        match MathFunctionKind::from_name(name) {
            Some(k) => Ok(SystemCallKind::Function(SystemFunction::Math(k))),
            None => {
                let mut m = owned("unknown system identifier: ");
                append_str(&mut m, name);
                Err(m)
            },
        }
    }
}

/// The error for a system task used where a value is needed.
pub fn task_in_expression_error(name: &str) -> (r: String)
    ensures
        r@ == name@ + "() is a system task, it cannot be called as a function."@,
{
    let mut m = owned(name);
    append_str(&mut m, "() is a system task, it cannot be called as a function.");
    m
}

/// The name of the base-cast system function that selects `base`.
pub fn base_cast_name(base: Base) -> (r: &'static str)
    ensures
        r@ == match base {
            Base::Binary => "$bin"@,
            Base::Octal => "$oct"@,
            Base::Decimal => "$dec"@,
            Base::Hex => "$hex"@,
        },
{
    match base {
        Base::Binary => "$bin",
        Base::Octal => "$oct",
        Base::Decimal => "$dec",
        Base::Hex => "$hex",
    }
}

// ----- `$display` format strings -----
/// The format controls the calculator implements.
pub open spec fn supported_control(c: char) -> bool {
    c == 'b' || c == 'B' || c == 'o' || c == 'O' || c == 'd' || c == 'D' || c == 'h' || c == 'H'
        || c == 'x' || c == 'X' || c == 'c' || c == 'C' || c == 's' || c == 'S' || c == 'f' || c
        == 'F' || c == 'e' || c == 'E' || c == 'g' || c == 'G'
}

/// Whether `%c` is a format control the calculator implements.
pub fn is_supported_format_control(specifier: char) -> (r: bool)
    ensures
        r == supported_control(specifier),
{
    specifier == 'b' || specifier == 'B' || specifier == 'o' || specifier == 'O' || specifier
        == 'd' || specifier == 'D' || specifier == 'h' || specifier == 'H' || specifier == 'x'
        || specifier == 'X' || specifier == 'c' || specifier == 'C' || specifier == 's'
        || specifier == 'S' || specifier == 'f' || specifier == 'F' || specifier == 'e'
        || specifier == 'E' || specifier == 'g' || specifier == 'G'
}

/// The check of the controls of `f` from byte `i`, when `consumed` of the
/// `available` arguments are taken already. A control that needs an argument
/// and finds none is reported before an unsupported control.
pub open spec fn controls_from(f: Seq<u8>, i: int, consumed: nat, available: nat) -> Result<
    (),
    Seq<char>,
>
    decreases f.len() - i,
{
    if i < 0 || i >= f.len() {
        Ok(())
    } else if f[i] != 37u8 {
        controls_from(f, i + 1, consumed, available)
    } else if i + 1 == f.len() {
        Err("display format control `%` is missing a specifier"@)
    } else {
        let c = f[i + 1] as char;
        if c == '%' {
            controls_from(f, i + 2, consumed, available)
        } else if consumed == available {
            Err(
                "display format %"@ + seq![c] + " expects an argument, got "@ + decimal_string(
                    available,
                ),
            )
        } else if !supported_control(c) {
            Err("unsupported display format control `%"@ + seq![c] + "`"@)
        } else {
            controls_from(f, i + 2, consumed + 1, available)
        }
    }
}

/// Checks the format controls of a `$display` format string against the
/// `available` arguments after it.
pub fn check_format_controls(format_bytes: &[u8], available: usize) -> (r: Result<(), String>)
    ensures
        match controls_from(format_bytes@, 0, 0, available as nat) {
            Ok(_) => r is Ok,
            Err(m) => r matches Err(x) && x@ == m,
        },
{
    let n = format_bytes.len();
    let mut index: usize = 0;
    let mut consumed: usize = 0;
    while index < n
        invariant
            n == format_bytes@.len(),
            index <= n,
            consumed <= available,
            controls_from(format_bytes@, 0, 0, available as nat) == controls_from(
                format_bytes@,
                index as int,
                consumed as nat,
                available as nat,
            ),
        decreases n - index,
    {
        if format_bytes[index] != 37u8 {
            index = index + 1;
            continue;
        }
        if index + 1 == n {
            return Err(owned("display format control `%` is missing a specifier"));
        }
        let specifier = format_bytes[index + 1] as char;
        index = index + 2;
        if specifier == '%' {
            continue;
        }
        if consumed == available {
            let mut m = owned("display format %");
            push_char(&mut m, specifier);
            append_str(&mut m, " expects an argument, got ");
            append_str(&mut m, decimal_text(available).as_str());
            return Err(m);
        }
        consumed = consumed + 1;
        if !is_supported_format_control(specifier) {
            let mut m = owned("unsupported display format control `%");
            push_char(&mut m, specifier);
            append_str(&mut m, "`");
            return Err(m);
        }
    }
    Ok(())
}

/// Length and a few characters of each system name: enough to tell any two
/// of them apart.
proof fn lemma_name_chars()
    ensures
        "$clog2"@.len() == 6 && "$clog2"@[1] == 'c' && "$clog2"@[2] == 'l' && "$clog2"@[5] == '2',
        "$ln"@.len() == 3 && "$ln"@[1] == 'l' && "$ln"@[2] == 'n',
        "$log10"@.len() == 6 && "$log10"@[1] == 'l' && "$log10"@[2] == 'o' && "$log10"@[5] == '0',
        "$exp"@.len() == 4 && "$exp"@[1] == 'e' && "$exp"@[2] == 'x',
        "$sqrt"@.len() == 5 && "$sqrt"@[1] == 's' && "$sqrt"@[2] == 'q',
        "$floor"@.len() == 6 && "$floor"@[1] == 'f' && "$floor"@[2] == 'l' && "$floor"@[5] == 'r',
        "$ceil"@.len() == 5 && "$ceil"@[1] == 'c' && "$ceil"@[2] == 'e',
        "$sin"@.len() == 4 && "$sin"@[1] == 's' && "$sin"@[2] == 'i',
        "$cos"@.len() == 4 && "$cos"@[1] == 'c' && "$cos"@[2] == 'o',
        "$tan"@.len() == 4 && "$tan"@[1] == 't' && "$tan"@[2] == 'a',
        "$asin"@.len() == 5 && "$asin"@[1] == 'a' && "$asin"@[2] == 's',
        "$acos"@.len() == 5 && "$acos"@[1] == 'a' && "$acos"@[2] == 'c',
        "$atan"@.len() == 5 && "$atan"@[1] == 'a' && "$atan"@[2] == 't',
        "$sinh"@.len() == 5 && "$sinh"@[1] == 's' && "$sinh"@[2] == 'i',
        "$cosh"@.len() == 5 && "$cosh"@[1] == 'c' && "$cosh"@[2] == 'o',
        "$tanh"@.len() == 5 && "$tanh"@[1] == 't' && "$tanh"@[2] == 'a',
        "$asinh"@.len() == 6 && "$asinh"@[1] == 'a' && "$asinh"@[2] == 's' && "$asinh"@[5] == 'h',
        "$acosh"@.len() == 6 && "$acosh"@[1] == 'a' && "$acosh"@[2] == 'c' && "$acosh"@[5] == 'h',
        "$atanh"@.len() == 6 && "$atanh"@[1] == 'a' && "$atanh"@[2] == 't' && "$atanh"@[5] == 'h',
        "$pow"@.len() == 4 && "$pow"@[1] == 'p' && "$pow"@[2] == 'o',
        "$atan2"@.len() == 6 && "$atan2"@[1] == 'a' && "$atan2"@[2] == 't' && "$atan2"@[5] == '2',
        "$hypot"@.len() == 6 && "$hypot"@[1] == 'h' && "$hypot"@[2] == 'y' && "$hypot"@[5] == 't',
        "$finish"@.len() == 7 && "$finish"@[1] == 'f' && "$finish"@[2] == 'i' && "$finish"@[5] == 's' && "$finish"@[6] == 'h',
        "$stop"@.len() == 5 && "$stop"@[1] == 's' && "$stop"@[2] == 't',
        "$display"@.len() == 8 && "$display"@[1] == 'd' && "$display"@[2] == 'i' && "$display"@[5] == 'l' && "$display"@[6] == 'a',
        "$displayb"@.len() == 9 && "$displayb"@[1] == 'd' && "$displayb"@[2] == 'i' && "$displayb"@[5] == 'l' && "$displayb"@[6] == 'a' && "$displayb"@[8] == 'b',
        "$displayo"@.len() == 9 && "$displayo"@[1] == 'd' && "$displayo"@[2] == 'i' && "$displayo"@[5] == 'l' && "$displayo"@[6] == 'a' && "$displayo"@[8] == 'o',
        "$displayh"@.len() == 9 && "$displayh"@[1] == 'd' && "$displayh"@[2] == 'i' && "$displayh"@[5] == 'l' && "$displayh"@[6] == 'a' && "$displayh"@[8] == 'h',
        "$write"@.len() == 6 && "$write"@[1] == 'w' && "$write"@[2] == 'r' && "$write"@[5] == 'e',
        "$writeb"@.len() == 7 && "$writeb"@[1] == 'w' && "$writeb"@[2] == 'r' && "$writeb"@[5] == 'e' && "$writeb"@[6] == 'b',
        "$writeo"@.len() == 7 && "$writeo"@[1] == 'w' && "$writeo"@[2] == 'r' && "$writeo"@[5] == 'e' && "$writeo"@[6] == 'o',
        "$writeh"@.len() == 7 && "$writeh"@[1] == 'w' && "$writeh"@[2] == 'r' && "$writeh"@[5] == 'e' && "$writeh"@[6] == 'h',
        "$signed"@.len() == 7 && "$signed"@[1] == 's' && "$signed"@[2] == 'i' && "$signed"@[5] == 'e' && "$signed"@[6] == 'd',
        "$unsigned"@.len() == 9 && "$unsigned"@[1] == 'u' && "$unsigned"@[2] == 'n' && "$unsigned"@[5] == 'g' && "$unsigned"@[6] == 'n' && "$unsigned"@[8] == 'd',
        "$bin"@.len() == 4 && "$bin"@[1] == 'b' && "$bin"@[2] == 'i',
        "$oct"@.len() == 4 && "$oct"@[1] == 'o' && "$oct"@[2] == 'c',
        "$dec"@.len() == 4 && "$dec"@[1] == 'd' && "$dec"@[2] == 'e',
        "$hex"@.len() == 4 && "$hex"@[1] == 'h' && "$hex"@[2] == 'e',
        "$rtoi"@.len() == 5 && "$rtoi"@[1] == 'r' && "$rtoi"@[2] == 't',
        "$itor"@.len() == 5 && "$itor"@[1] == 'i' && "$itor"@[2] == 't',
        "$realtobits"@.len() == 11 && "$realtobits"@[1] == 'r' && "$realtobits"@[2] == 'e' && "$realtobits"@[5] == 't' && "$realtobits"@[6] == 'o' && "$realtobits"@[8] == 'i',
        "$bitstoreal"@.len() == 11 && "$bitstoreal"@[1] == 'b' && "$bitstoreal"@[2] == 'i' && "$bitstoreal"@[5] == 't' && "$bitstoreal"@[6] == 'o' && "$bitstoreal"@[8] == 'e',
{
    reveal_strlit("$clog2");
    reveal_strlit("$ln");
    reveal_strlit("$log10");
    reveal_strlit("$exp");
    reveal_strlit("$sqrt");
    reveal_strlit("$floor");
    reveal_strlit("$ceil");
    reveal_strlit("$sin");
    reveal_strlit("$cos");
    reveal_strlit("$tan");
    reveal_strlit("$asin");
    reveal_strlit("$acos");
    reveal_strlit("$atan");
    reveal_strlit("$sinh");
    reveal_strlit("$cosh");
    reveal_strlit("$tanh");
    reveal_strlit("$asinh");
    reveal_strlit("$acosh");
    reveal_strlit("$atanh");
    reveal_strlit("$pow");
    reveal_strlit("$atan2");
    reveal_strlit("$hypot");
    reveal_strlit("$finish");
    reveal_strlit("$stop");
    reveal_strlit("$display");
    reveal_strlit("$displayb");
    reveal_strlit("$displayo");
    reveal_strlit("$displayh");
    reveal_strlit("$write");
    reveal_strlit("$writeb");
    reveal_strlit("$writeo");
    reveal_strlit("$writeh");
    reveal_strlit("$signed");
    reveal_strlit("$unsigned");
    reveal_strlit("$bin");
    reveal_strlit("$oct");
    reveal_strlit("$dec");
    reveal_strlit("$hex");
    reveal_strlit("$rtoi");
    reveal_strlit("$itor");
    reveal_strlit("$realtobits");
    reveal_strlit("$bitstoreal");
}

/// The name table of the math functions is one-to-one: looking up the name of
/// a function gives that function back, so `from_name` and `name` agree.
pub proof fn lemma_math_name_round_trip(k: MathFunctionKind)
    ensures
        math_kind_of(math_name(k)) == Some(k),
{
    lemma_name_chars();
}

/// Looking up the name of a system task gives that task back.
pub proof fn lemma_task_name_round_trip(t: SystemTask)
    ensures
        task_of(task_name(t)) == Some(t),
{
    lemma_name_chars();
}

/// Every system task and every math function is classified as itself.
pub proof fn lemma_classify_names(t: SystemTask, k: MathFunctionKind)
    ensures
        classify(task_name(t)) == Ok::<SystemCallKind, Seq<char>>(SystemCallKind::Task(t)),
        classify(math_name(k)) == Ok::<SystemCallKind, Seq<char>>(
            SystemCallKind::Function(SystemFunction::Math(k)),
        ),
{
    lemma_task_name_round_trip(t);
    lemma_math_name_round_trip(k);
    lemma_name_chars();
}

} // verus!

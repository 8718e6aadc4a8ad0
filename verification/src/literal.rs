//! Integer and real literal text to literal specifications (LRM 3.5).
use crate::ast::{Base, LiteralPayload, LiteralSpec, LogicBit, SLiteral, SPayload};
use crate::bignum::{
    lemma_bit_len_bound, all_decimal_digits, biguint_bits, bit_len, decimal_value, digit_value, parse_decimal,
};
use crate::text::{chars_of, owned, push_char};
use vstd::arithmetic::power::pow;
use vstd::arithmetic::power2::{lemma_pow2_strictly_increases, lemma_pow2_unfold, pow2};
use crate::value::{has_unknown, is_known, unsigned_value};
use vstd::prelude::*;

verus! {

/// `s` without its underscores.
pub open spec fn strip_underscores(s: Seq<char>) -> Seq<char>
    decreases s.len(),
{
    if s.len() == 0 {
        Seq::empty()
    } else if s.last() == '_' {
        strip_underscores(s.drop_last())
    } else {
        strip_underscores(s.drop_last()).push(s.last())
    }
}

pub open spec fn lower(c: char) -> char {
    if 'A' <= c <= 'Z' {
        ((c as u32) + 32) as char
    } else {
        c
    }
}

pub open spec fn starts_with(s: Seq<char>, c: char) -> bool {
    s.len() > 0 && s[0] == c
}

pub open spec fn is_x_digit(c: char) -> bool {
    c == 'x' || c == 'X'
}

pub open spec fn is_z_digit(c: char) -> bool {
    c == 'z' || c == 'Z' || c == '?'
}

/// Bit width of a signed decimal magnitude: its significant bits plus a sign
/// bit, capped at the largest `usize`.
pub open spec fn signed_decimal_bit_len(n: nat) -> usize {
    if bit_len(n) + 1 > usize::MAX {
        usize::MAX
    } else {
        (bit_len(n) + 1) as usize
    }
}

/// Bit width of an unsigned decimal magnitude, capped at the largest `usize`.
pub open spec fn unsigned_decimal_bit_len(n: nat) -> usize {
    if bit_len(n) > usize::MAX {
        usize::MAX
    } else {
        bit_len(n) as usize
    }
}

pub open spec fn max32(w: usize) -> usize {
    if w > 32 {
        w
    } else {
        32
    }
}

/// `width` low bits of `v`, least significant first.
pub open spec fn int_bits(v: nat, width: nat) -> Seq<LogicBit>
    decreases width,
{
    if width == 0 {
        Seq::empty()
    } else {
        seq![if v % 2 == 0 { LogicBit::Zero } else { LogicBit::One }] + int_bits(
            v / 2,
            (width - 1) as nat,
        )
    }
}

/// The bits that one digit of a binary, octal or hex literal stands for.
pub open spec fn digit_bits(digit: char, base: Base) -> Result<Seq<LogicBit>, Seq<char>> {
    let d = lower(digit);
    match base {
        Base::Binary => if d == '0' {
            Ok(seq![LogicBit::Zero])
        } else if d == '1' {
            Ok(seq![LogicBit::One])
        } else if d == 'x' {
            Ok(seq![LogicBit::X])
        } else if d == 'z' || d == '?' {
            Ok(seq![LogicBit::Z])
        } else {
            Err("invalid binary digit: "@.push(d))
        },
        Base::Octal => if d == 'x' {
            Ok(seq![LogicBit::X, LogicBit::X, LogicBit::X])
        } else if d == 'z' || d == '?' {
            Ok(seq![LogicBit::Z, LogicBit::Z, LogicBit::Z])
        } else if '0' <= d <= '7' {
            Ok(int_bits(digit_value(d), 3))
        } else {
            Err("invalid octal digit: "@.push(d))
        },
        Base::Hex => if d == 'x' {
            Ok(seq![LogicBit::X, LogicBit::X, LogicBit::X, LogicBit::X])
        } else if d == 'z' || d == '?' {
            Ok(seq![LogicBit::Z, LogicBit::Z, LogicBit::Z, LogicBit::Z])
        } else if '0' <= d <= '9' {
            Ok(int_bits(digit_value(d), 4))
        } else if 'a' <= d <= 'f' {
            Ok(int_bits((d as u32 - 'a' as u32 + 10) as nat, 4))
        } else {
            Err("invalid hex digit: "@.push(d))
        },
        Base::Decimal => Err("decimal digits are parsed separately"@),
    }
}

/// Bits of a radix digit string, least significant digit first; the first
/// error met scanning from the right wins.
pub open spec fn radix_bits(ds: Seq<char>, base: Base) -> Result<Seq<LogicBit>, Seq<char>>
    decreases ds.len(),
{
    if ds.len() == 0 {
        Ok(Seq::empty())
    } else {
        match digit_bits(ds.last(), base) {
            Err(m) => Err(m),
            Ok(b) => match radix_bits(ds.drop_last(), base) {
                Ok(r) => Ok(b + r),
                Err(m) => Err(m),
            },
        }
    }
}

pub open spec fn extension_bit(c: char) -> LogicBit {
    if is_x_digit(c) {
        LogicBit::X
    } else if is_z_digit(c) {
        LogicBit::Z
    } else {
        LogicBit::Zero
    }
}

pub open spec fn underscore_msg(s: Seq<char>) -> Seq<char> {
    "number cannot start with underscore: "@ + s
}

/// A literal size: a decimal number without leading zero that fits in `usize`.
pub open spec fn spec_parse_size(t: Seq<char>) -> Result<usize, Seq<char>> {
    let digits = strip_underscores(t);
    if starts_with(t, '_') {
        Err(underscore_msg(t))
    } else if digits.len() == 0 {
        Err("missing integer size"@)
    } else if !('1' <= digits[0] <= '9') || !all_decimal_digits(digits) {
        Err("invalid integer size: "@ + t)
    } else if decimal_value(digits) > usize::MAX {
        Err("integer size is too large: "@ + t)
    } else {
        Ok(decimal_value(digits) as usize)
    }
}

pub open spec fn all_x(s: Seq<char>) -> bool {
    forall|i: int| 0 <= i < s.len() ==> is_x_digit(#[trigger] s[i])
}

pub open spec fn all_z(s: Seq<char>) -> bool {
    forall|i: int| 0 <= i < s.len() ==> is_z_digit(#[trigger] s[i])
}

pub open spec fn width_or(hint: Option<usize>, w: usize) -> usize {
    match hint {
        Some(h) => h,
        None => w,
    }
}

pub open spec fn based_decimal(hint: Option<usize>, signed: bool, digits: Seq<char>) -> Result<
    SLiteral,
    Seq<char>,
> {
    if all_x(digits) || all_z(digits) {
        Ok(
            SLiteral {
                width: width_or(hint, 32),
                signed,
                base: Base::Decimal,
                unsized_literal: hint is None,
                payload: SPayload::Bits {
                    low_bits: Seq::empty(),
                    fill: if all_x(digits) {
                        LogicBit::X
                    } else {
                        LogicBit::Z
                    },
                },
            },
        )
    } else if !all_decimal_digits(digits) {
        Err("invalid decimal digits: "@ + digits)
    } else {
        let m = decimal_value(digits);
        Ok(
            SLiteral {
                width: width_or(
                    hint,
                    max32(
                        if signed {
                            signed_decimal_bit_len(m)
                        } else {
                            unsigned_decimal_bit_len(m)
                        },
                    ),
                ),
                signed,
                base: Base::Decimal,
                unsized_literal: hint is None,
                payload: SPayload::Numeric { magnitude: m },
            },
        )
    }
}

pub open spec fn based_radix(hint: Option<usize>, signed: bool, base: Base, digits: Seq<char>) -> Result<
    SLiteral,
    Seq<char>,
> {
    match radix_bits(digits, base) {
        Err(m) => Err(m),
        Ok(bits) => Ok(
            SLiteral {
                width: width_or(
                    hint,
                    if bits.len() > usize::MAX {
                        usize::MAX
                    } else {
                        max32(bits.len() as usize)
                    },
                ),
                signed,
                base,
                unsized_literal: hint is None,
                payload: SPayload::Bits { low_bits: bits, fill: extension_bit(digits[0]) },
            },
        ),
    }
}

pub open spec fn base_of(c: char) -> Option<Base> {
    let l = lower(c);
    if l == 'b' {
        Some(Base::Binary)
    } else if l == 'o' {
        Some(Base::Octal)
    } else if l == 'd' {
        Some(Base::Decimal)
    } else if l == 'h' {
        Some(Base::Hex)
    } else {
        None
    }
}

/// `<size>'<s?><base><digits>`, the apostrophe at index `a`.
pub open spec fn based_integer(t: Seq<char>, a: int) -> Result<SLiteral, Seq<char>> {
    let size_part = t.subrange(0, a);
    let rest0 = t.subrange(a + 1, t.len() as int);
    let width: Result<Option<usize>, Seq<char>> = if size_part.len() == 0 {
        Ok(None)
    } else {
        match spec_parse_size(size_part) {
            Ok(w) => Ok(Some(w)),
            Err(m) => Err(m),
        }
    };
    let signed = starts_with(rest0, 's') || starts_with(rest0, 'S');
    let rest1 = if signed {
        rest0.drop_first()
    } else {
        rest0
    };
    match width {
        Err(m) => Err(m),
        Ok(hint) => if rest1.len() == 0 {
            Err("missing base after apostrophe"@)
        } else {
            let rest2 = rest1.drop_first();
            let digits = strip_underscores(rest2);
            match base_of(rest1[0]) {
                None => Err("unsupported integer base: "@.push(rest1[0])),
                Some(base) => if starts_with(rest2, '_') {
                    Err(underscore_msg(rest2))
                } else if digits.len() == 0 {
                    Err("missing digits in integer literal"@)
                } else if base == Base::Decimal {
                    based_decimal(hint, signed, digits)
                } else {
                    based_radix(hint, signed, base, digits)
                },
            }
        },
    }
}

pub open spec fn unsized_decimal(t: Seq<char>) -> Result<SLiteral, Seq<char>> {
    let digits = strip_underscores(t);
    if starts_with(t, '_') {
        Err(underscore_msg(t))
    } else if digits.len() == 0 || !all_decimal_digits(digits) {
        Err("invalid decimal digits: "@ + digits)
    } else {
        let m = decimal_value(digits);
        Ok(
            SLiteral {
                width: max32(signed_decimal_bit_len(m)),
                signed: true,
                base: Base::Decimal,
                unsized_literal: true,
                payload: SPayload::Numeric { magnitude: m },
            },
        )
    }
}

/// `prefix` in front of the bits of an `Ok`; errors pass through.
pub open spec fn prefix_bits(prefix: Seq<LogicBit>, r: Result<Seq<LogicBit>, Seq<char>>) -> Result<Seq<LogicBit>, Seq<char>> {
    match r {
        Ok(b) => Ok(prefix + b),
        Err(m) => Err(m),
    }
}

/// Index of the first `c` in `t`, or its length.
pub open spec fn find(t: Seq<char>, c: char, j: int) -> int
    decreases t.len() - j,
{
    if j < 0 || j >= t.len() {
        t.len() as int
    } else if t[j] == c {
        j
    } else {
        find(t, c, j + 1)
    }
}

/// The literal that an integer literal token's text stands for.
pub open spec fn spec_parse_integer(t: Seq<char>) -> Result<SLiteral, Seq<char>> {
    let a = find(t, '\'', 0);
    if a < t.len() {
        based_integer(t, a)
    } else {
        unsized_decimal(t)
    }
}

pub proof fn lemma_find(t: Seq<char>, c: char, j: int)
    requires
        0 <= j <= t.len(),
    ensures
        j <= find(t, c, j) <= t.len(),
        find(t, c, j) < t.len() ==> t[find(t, c, j)] == c,
        forall|k: int| j <= k < find(t, c, j) ==> t[k] != c,
    decreases t.len() - j,
{
    if j < t.len() && t[j] != c {
        lemma_find(t, c, j + 1);
    }
}

// ----- executable -----
/// The characters of `s[from..to]` with underscores removed.
pub fn strip_chars(s: &Vec<char>, from: usize, to: usize) -> (r: Vec<char>)
    requires
        from <= to <= s@.len(),
    ensures
        r@ == strip_underscores(s@.subrange(from as int, to as int)),
{
    let mut r: Vec<char> = Vec::new();
    let mut k = from;
    while k < to
        invariant
            from <= k <= to <= s@.len(),
            r@ == strip_underscores(s@.subrange(from as int, k as int)),
        decreases to - k,
    {
        proof {
            assert(s@.subrange(from as int, k + 1).drop_last() =~= s@.subrange(from as int, k as int));
        }
        if s[k] != '_' {
            r.push(s[k]);
        }
        k = k + 1;
    }
    r
}

/// Maps `A`..`Z` to `a`..`z` and leaves every other character as it is.
fn to_lower(c: char) -> (r: char)
    ensures
        r == lower(c),
{
    if 'A' <= c && c <= 'Z' {
        let b: u8 = c as u8;
        assert(b == c as u32);
        (b + 32) as char
    } else {
        c
    }
}

/// A `String` holding `prefix` followed by the characters of `v`.
pub fn message(prefix: &str, v: &Vec<char>) -> (r: String)
    ensures
        r@ == prefix@ + v@,
{
    let mut r = owned(prefix);
    let mut k: usize = 0;
    while k < v.len()
        invariant
            k <= v@.len(),
            r@ == prefix@ + v@.take(k as int),
        decreases v@.len() - k,
    {
        push_char(&mut r, v[k]);
        k = k + 1;
        assert(r@ =~= prefix@ + v@.take(k as int));
    }
    assert(v@.take(k as int) =~= v@);
    r
}

fn ensure_no_leading_underscore(t: &Vec<char>) -> (r: Result<(), String>)
    ensures
        starts_with(t@, '_') ==> (r matches Err(m) && m@ == underscore_msg(t@)),
        !starts_with(t@, '_') ==> r is Ok,
{
    if t.len() > 0 && t[0] == '_' {
        return Err(message("number cannot start with underscore: ", t));
    }
    Ok(())
}

fn all_digits(d: &Vec<char>) -> (r: bool)
    ensures
        r == all_decimal_digits(d@),
{
    let mut k: usize = 0;
    while k < d.len()
        invariant
            k <= d@.len(),
            forall|i: int| 0 <= i < k ==> '0' <= #[trigger] d@[i] <= '9',
        decreases d@.len() - k,
    {
        if !('0' <= d[k] && d[k] <= '9') {
            return false;
        }
        k = k + 1;
    }
    true
}

fn digits_string(d: &Vec<char>) -> (r: String)
    ensures
        r@ == d@,
{
    let mut r = String::new();
    let mut k: usize = 0;
    while k < d.len()
        invariant
            k <= d@.len(),
            r@ == d@.take(k as int),
        decreases d@.len() - k,
    {
        push_char(&mut r, d[k]);
        k = k + 1;
        assert(r@ =~= d@.take(k as int));
    }
    assert(d@.take(k as int) =~= d@);
    r
}

pub proof fn lemma_decimal_value_step(d: Seq<char>, k: int)
    requires
        0 <= k < d.len(),
    ensures
        decimal_value(d.take(k + 1)) == decimal_value(d.take(k)) * 10 + digit_value(d[k]),
{
    assert(d.take(k + 1).drop_last() =~= d.take(k));
}

/// Parses the size in front of a based literal.
fn parse_size(t: &Vec<char>) -> (r: Result<usize, String>)
    ensures
        match spec_parse_size(t@) {
            Ok(w) => r == Ok::<usize, String>(w),
            Err(m) => r matches Err(x) && x@ == m,
        },
{
    ensure_no_leading_underscore(t)?;
    let digits = strip_chars(t, 0, t.len());
    assert(t@.subrange(0, t@.len() as int) =~= t@);
    if digits.len() == 0 {
        return Err(owned("missing integer size"));
    }
    if !('1' <= digits[0] && digits[0] <= '9') || !all_digits(&digits) {
        return Err(message("invalid integer size: ", t));
    }
    let mut value: usize = 0;
    let mut k: usize = 0;
    assert(digits@.take(0) =~= Seq::<char>::empty());
    while k < digits.len()
        invariant
            k <= digits@.len(),
            all_decimal_digits(digits@),
            digits@ == strip_underscores(t@),
            !starts_with(t@, '_'),
            digits@.len() > 0,
            '1' <= digits@[0] <= '9',
            value == decimal_value(digits@.take(k as int)),
        decreases digits@.len() - k,
    {
        proof {
            lemma_decimal_value_step(digits@, k as int);
        }
        let dv = (digits[k] as u32 - '0' as u32) as usize;
        match value.checked_mul(10) {
            Some(v10) => match v10.checked_add(dv) {
                Some(v) => {
                    value = v;
                },
                None => {
                    proof {
                        lemma_decimal_value_prefix_bound(digits@, k + 1);
                        assert(digits@.take(digits@.len() as int) =~= digits@);
                    }
                    return Err(message("integer size is too large: ", t));
                },
            },
            None => {
                proof {
                    lemma_decimal_value_prefix_bound(digits@, k + 1);
                    assert(digits@.take(digits@.len() as int) =~= digits@);
                }
                return Err(message("integer size is too large: ", t));
            },
        }
        k = k + 1;
    }
    assert(digits@.take(k as int) =~= digits@);
    Ok(value)
}

/// A longer prefix of a digit string never denotes a smaller number.
pub proof fn lemma_decimal_value_prefix_bound(d: Seq<char>, k: int)
    requires
        0 <= k <= d.len(),
        all_decimal_digits(d),
    ensures
        decimal_value(d.take(k)) <= decimal_value(d),
    decreases d.len() - k,
{
    if k < d.len() {
        lemma_decimal_value_step(d, k);
        lemma_decimal_value_prefix_bound(d, k + 1);
    } else {
        assert(d.take(k) =~= d);
    }
}

fn int_bits_exec(v: u32, width: usize, out: &mut Vec<LogicBit>)
    requires
        width <= 8,
    ensures
        final(out)@ == old(out)@ + int_bits(v as nat, width as nat),
    decreases width,
{
    if width == 0 {
        assert(old(out)@ + int_bits(v as nat, 0) =~= old(out)@);
        return;
    }
    let b = if v % 2 == 0 {
        LogicBit::Zero
    } else {
        LogicBit::One
    };
    let ghost before = out@;
    out.push(b);
    int_bits_exec(v / 2, width - 1, out);
    assert(out@ =~= before + int_bits(v as nat, width as nat));
}

/// Appends the bits of one radix digit.
fn push_digit_bits(digit: char, base: Base, out: &mut Vec<LogicBit>) -> (r: Result<(), String>)
    ensures
        match digit_bits(digit, base) {
            Ok(b) => r is Ok && final(out)@ == old(out)@ + b,
            Err(m) => r matches Err(x) && x@ == m,
        },
{
    let d = to_lower(digit);
    match base {
        Base::Binary => {
            if d == '0' {
                out.push(LogicBit::Zero);
            } else if d == '1' {
                out.push(LogicBit::One);
            } else if d == 'x' {
                out.push(LogicBit::X);
            } else if d == 'z' || d == '?' {
                out.push(LogicBit::Z);
            } else {
                let mut m = owned("invalid binary digit: ");
                push_char(&mut m, d);
                return Err(m);
            }
            assert(out@ =~= old(out)@ + digit_bits(digit, base)->Ok_0);
        },
        Base::Octal => {
            if d == 'x' {
                out.push(LogicBit::X);
                out.push(LogicBit::X);
                out.push(LogicBit::X);
            } else if d == 'z' || d == '?' {
                out.push(LogicBit::Z);
                out.push(LogicBit::Z);
                out.push(LogicBit::Z);
            } else if '0' <= d && d <= '7' {
                int_bits_exec(d as u32 - '0' as u32, 3, out);
            } else {
                let mut m = owned("invalid octal digit: ");
                push_char(&mut m, d);
                return Err(m);
            }
            assert(out@ =~= old(out)@ + digit_bits(digit, base)->Ok_0);
        },
        Base::Hex => {
            if d == 'x' {
                out.push(LogicBit::X);
                out.push(LogicBit::X);
                out.push(LogicBit::X);
                out.push(LogicBit::X);
            } else if d == 'z' || d == '?' {
                out.push(LogicBit::Z);
                out.push(LogicBit::Z);
                out.push(LogicBit::Z);
                out.push(LogicBit::Z);
            } else if '0' <= d && d <= '9' {
                int_bits_exec(d as u32 - '0' as u32, 4, out);
            } else if 'a' <= d && d <= 'f' {
                int_bits_exec(d as u32 - 'a' as u32 + 10, 4, out);
            } else {
                let mut m = owned("invalid hex digit: ");
                push_char(&mut m, d);
                return Err(m);
            }
            assert(out@ =~= old(out)@ + digit_bits(digit, base)->Ok_0);
        },
        Base::Decimal => {
            return Err(owned("decimal digits are parsed separately"));
        },
    }
    Ok(())
}

fn ext_bit(c: char) -> (r: LogicBit)
    ensures
        r == extension_bit(c),
{
    if c == 'x' || c == 'X' {
        LogicBit::X
    } else if c == 'z' || c == 'Z' || c == '?' {
        LogicBit::Z
    } else {
        LogicBit::Zero
    }
}

fn parse_based_radix(hint: Option<usize>, signed: bool, base: Base, digits: &Vec<char>) -> (r: Result<
    LiteralSpec,
    String,
>)
    requires
        digits@.len() > 0,
    ensures
        match based_radix(hint, signed, base, digits@) {
            Ok(l) => r matches Ok(x) && x@ == l,
            Err(m) => r matches Err(x) && x@ == m,
        },
{
    let mut low_bits: Vec<LogicBit> = Vec::new();
    let mut k = digits.len();
    assert(digits@.take(k as int) =~= digits@);
    assert(low_bits@ + Seq::<LogicBit>::empty() =~= low_bits@);
    while k > 0
        invariant
            k <= digits@.len(),
            radix_bits(digits@, base) == prefix_bits(low_bits@, radix_bits(digits@.take(k as int), base)),
        decreases k,
    {
        let ghost before = low_bits@;
        let c = digits[k - 1];
        proof {
            assert(digits@.take(k as int).drop_last() =~= digits@.take(k - 1));
            assert(digits@.take(k as int).last() == c);
        }
        push_digit_bits(c, base, &mut low_bits)?;
        k = k - 1;
        proof {
            let b = digit_bits(c, base)->Ok_0;
            match radix_bits(digits@.take(k as int), base) {
                Ok(rest) => {
                    assert(before + (b + rest) =~= low_bits@ + rest);
                },
                Err(_) => {},
            }
        }
    }
    proof {
        assert(digits@.take(0) =~= Seq::<char>::empty());
        assert(low_bits@ + Seq::<LogicBit>::empty() =~= low_bits@);
    }
    let unsized_literal = hint.is_none();
    let width = match hint {
        Some(h) => h,
        None => if low_bits.len() > 32 {
            low_bits.len()
        } else {
            32
        },
    };
    Ok(
        LiteralSpec {
            width,
            signed,
            base,
            unsized_literal,
            payload: LiteralPayload::Bits { low_bits, fill: ext_bit(digits[0]) },
        },
    )
}

fn all_x_digits(d: &Vec<char>) -> (r: bool)
    ensures
        r == all_x(d@),
{
    let mut k: usize = 0;
    while k < d.len()
        invariant
            k <= d@.len(),
            forall|i: int| 0 <= i < k ==> is_x_digit(#[trigger] d@[i]),
        decreases d@.len() - k,
    {
        if !(d[k] == 'x' || d[k] == 'X') {
            return false;
        }
        k = k + 1;
    }
    true
}

fn all_z_digits(d: &Vec<char>) -> (r: bool)
    ensures
        r == all_z(d@),
{
    let mut k: usize = 0;
    while k < d.len()
        invariant
            k <= d@.len(),
            forall|i: int| 0 <= i < k ==> is_z_digit(#[trigger] d@[i]),
        decreases d@.len() - k,
    {
        if !(d[k] == 'z' || d[k] == 'Z' || d[k] == '?') {
            return false;
        }
        k = k + 1;
    }
    true
}

/// Magnitude of a digit string and the width it needs.
fn decimal_magnitude(digits: &Vec<char>, signed: bool) -> (r: (num_bigint::BigUint, usize))
    requires
        digits@.len() > 0,
        all_decimal_digits(digits@),
    ensures
        crate::bignum::biguint_value(r.0) == decimal_value(digits@),
        r.1 == (if signed {
            signed_decimal_bit_len(decimal_value(digits@))
        } else {
            unsigned_decimal_bit_len(decimal_value(digits@))
        }),
{
    let text = digits_string(digits);
    let parsed = parse_decimal(text.as_str());
    let magnitude = parsed.unwrap();
    let bits = biguint_bits(&magnitude);
    let width: usize = if signed {
        if bits >= usize::MAX as u64 {
            usize::MAX
        } else {
            bits as usize + 1
        }
    } else {
        if bits > usize::MAX as u64 {
            usize::MAX
        } else {
            bits as usize
        }
    };
    (magnitude, width)
}

fn parse_based_decimal(hint: Option<usize>, signed: bool, digits: &Vec<char>) -> (r: Result<
    LiteralSpec,
    String,
>)
    requires
        digits@.len() > 0,
    ensures
        match based_decimal(hint, signed, digits@) {
            Ok(l) => r matches Ok(x) && x@ == l,
            Err(m) => r matches Err(x) && x@ == m,
        },
{
    let unsized_literal = hint.is_none();
    let ax = all_x_digits(digits);
    if ax || all_z_digits(digits) {
        let width = match hint {
            Some(h) => h,
            None => 32,
        };
        let fill = if ax {
            LogicBit::X
        } else {
            LogicBit::Z
        };
        let low_bits: Vec<LogicBit> = Vec::new();
        let r = LiteralSpec {
            width,
            signed,
            base: Base::Decimal,
            unsized_literal,
            payload: LiteralPayload::Bits { low_bits, fill },
        };
        assert(r@.payload == based_decimal(hint, signed, digits@)->Ok_0.payload);
        return Ok(r);
    }
    if !all_digits(digits) {
        return Err(message("invalid decimal digits: ", digits));
    }
    let (magnitude, natural) = decimal_magnitude(digits, signed);
    let width = match hint {
        Some(h) => h,
        None => if natural > 32 {
            natural
        } else {
            32
        },
    };
    Ok(
        LiteralSpec {
            width,
            signed,
            base: Base::Decimal,
            unsized_literal,
            payload: LiteralPayload::Numeric { magnitude },
        },
    )
}

fn parse_unsized_decimal(t: &Vec<char>) -> (r: Result<LiteralSpec, String>)
    ensures
        match unsized_decimal(t@) {
            Ok(l) => r matches Ok(x) && x@ == l,
            Err(m) => r matches Err(x) && x@ == m,
        },
{
    ensure_no_leading_underscore(t)?;
    let digits = strip_chars(t, 0, t.len());
    assert(t@.subrange(0, t@.len() as int) =~= t@);
    if digits.len() == 0 || !all_digits(&digits) {
        return Err(message("invalid decimal digits: ", &digits));
    }
    let (magnitude, natural) = decimal_magnitude(&digits, true);
    let width = if natural > 32 {
        natural
    } else {
        32
    };
    Ok(
        LiteralSpec {
            width,
            signed: true,
            base: Base::Decimal,
            unsized_literal: true,
            payload: LiteralPayload::Numeric { magnitude },
        },
    )
}

fn base_from_char(c: char) -> (r: Option<Base>)
    ensures
        r == base_of(c),
{
    let l = to_lower(c);
    if l == 'b' {
        Some(Base::Binary)
    } else if l == 'o' {
        Some(Base::Octal)
    } else if l == 'd' {
        Some(Base::Decimal)
    } else if l == 'h' {
        Some(Base::Hex)
    } else {
        None
    }
}

/// A `Vec` with the characters `t[from..to]`.
fn sub_chars(t: &Vec<char>, from: usize, to: usize) -> (r: Vec<char>)
    requires
        from <= to <= t@.len(),
    ensures
        r@ == t@.subrange(from as int, to as int),
{
    let mut r: Vec<char> = Vec::new();
    let mut k = from;
    while k < to
        invariant
            from <= k <= to <= t@.len(),
            r@ == t@.subrange(from as int, k as int),
        decreases to - k,
    {
        r.push(t[k]);
        k = k + 1;
        assert(r@ =~= t@.subrange(from as int, k as int));
    }
    r
}

fn parse_based_integer(t: &Vec<char>, a: usize) -> (r: Result<LiteralSpec, String>)
    requires
        a < t.len(),
    ensures
        match based_integer(t@, a as int) {
            Ok(l) => r matches Ok(x) && x@ == l,
            Err(m) => r matches Err(x) && x@ == m,
        },
{
    let hint = if a == 0 {
        None
    } else {
        let size_part = sub_chars(t, 0, a);
        Some(parse_size(&size_part)?)
    };
    let mut k = a + 1;
    let signed = if k < t.len() && (t[k] == 's' || t[k] == 'S') {
        k = k + 1;
        true
    } else {
        false
    };
    proof {
        let rest0 = t@.subrange(a + 1, t@.len() as int);
        if signed {
            assert(rest0.drop_first() =~= t@.subrange(k as int, t@.len() as int));
        } else {
            assert(rest0 =~= t@.subrange(k as int, t@.len() as int));
        }
    }
    if k >= t.len() {
        return Err(owned("missing base after apostrophe"));
    }
    let base_char = t[k];
    proof {
        assert(t@.subrange(k as int, t@.len() as int).drop_first() =~= t@.subrange(
            k + 1,
            t@.len() as int,
        ));
    }
    let base = match base_from_char(base_char) {
        Some(b) => b,
        None => {
            let mut m = owned("unsupported integer base: ");
            push_char(&mut m, base_char);
            return Err(m);
        },
    };
    let rest2 = sub_chars(t, k + 1, t.len());
    ensure_no_leading_underscore(&rest2)?;
    let digits = strip_chars(&rest2, 0, rest2.len());
    assert(rest2@.subrange(0, rest2@.len() as int) =~= rest2@);
    if digits.len() == 0 {
        return Err(owned("missing digits in integer literal"));
    }
    match base {
        Base::Decimal => parse_based_decimal(hint, signed, &digits),
        _ => parse_based_radix(hint, signed, base, &digits),
    }
}

/// The literal specification of an integer literal token's text.
pub fn parse_integer(text: &String) -> (r: Result<LiteralSpec, String>)
    ensures
        match spec_parse_integer(text@) {
            Ok(l) => r matches Ok(x) && x@ == l,
            Err(m) => r matches Err(x) && x@ == m,
        },
{
    let t = chars_of(text.as_str());
    let mut a: usize = 0;
    while a < t.len() && t[a] != '\''
        invariant
            a <= t@.len(),
            find(t@, '\'', 0) == find(t@, '\'', a as int),
        decreases t@.len() - a,
    {
        a = a + 1;
    }
    if a < t.len() {
        parse_based_integer(&t, a)
    } else {
        parse_unsized_decimal(&t)
    }
}

/// Text of a real literal with its underscores removed.
pub fn parse_real(text: &String) -> (r: String)
    ensures
        r@ == strip_underscores(text@),
{
    let t = chars_of(text.as_str());
    let d = strip_chars(&t, 0, t.len());
    assert(t@.subrange(0, t@.len() as int) =~= t@);
    digits_string(&d)
}

/// Bits of the bytes `b`: the last byte lowest, each byte least significant
/// bit first.
pub open spec fn string_bits(b: Seq<u8>) -> Seq<LogicBit>
    decreases b.len(),
{
    if b.len() == 0 {
        Seq::empty()
    } else {
        int_bits(b.last() as nat, 8) + string_bits(b.drop_last())
    }
}

/// A string literal as an integer literal (LRM 3.6): eight bits per byte, the
/// first character most significant; the empty string is one zero byte.
pub open spec fn spec_string_literal(b: Seq<u8>) -> SLiteral {
    SLiteral {
        width: (if b.len() == 0 {
            8
        } else {
            b.len() * 8
        }) as usize,
        signed: false,
        base: Base::Hex,
        unsized_literal: false,
        payload: SPayload::Bits {
            low_bits: if b.len() == 0 {
                int_bits(0, 8)
            } else {
                string_bits(b)
            },
            fill: LogicBit::Zero,
        },
    }
}

/// The literal specification of the string literal with bytes `bytes`.
pub fn string_literal_spec(bytes: &[u8]) -> (r: LiteralSpec)
    requires
        bytes@.len() * 8 <= usize::MAX,
    ensures
        r@ == spec_string_literal(bytes@),
{
    let n = bytes.len();
    let width = if n == 0 {
        8
    } else {
        n * 8
    };
    let mut low_bits: Vec<LogicBit> = Vec::new();
    if n == 0 {
        int_bits_exec(0, 8, &mut low_bits);
        assert(low_bits@ =~= int_bits(0, 8));
    } else {
        let mut j = n;
        assert(bytes@.take(n as int) =~= bytes@);
        assert(low_bits@ + string_bits(bytes@.take(j as int)) =~= string_bits(bytes@));
        while j > 0
            invariant
                j <= n == bytes@.len(),
                string_bits(bytes@) == low_bits@ + string_bits(bytes@.take(j as int)),
            decreases j,
        {
            let ghost before = low_bits@;
            int_bits_exec(bytes[j - 1] as u32, 8, &mut low_bits);
            assert(bytes@.take(j as int).drop_last() =~= bytes@.take(j - 1));
            assert(before + string_bits(bytes@.take(j as int)) =~= low_bits@ + string_bits(
                bytes@.take(j - 1),
            ));
            j = j - 1;
        }
        assert(low_bits@ + string_bits(bytes@.take(0)) =~= low_bits@);
    }
    LiteralSpec {
        width,
        signed: false,
        base: Base::Hex,
        unsized_literal: false,
        payload: LiteralPayload::Bits { low_bits, fill: LogicBit::Zero },
    }
}

/// An unsized literal is at least 32 bits wide.
pub proof fn lemma_unsized_width(t: Seq<char>)
    ensures
        (spec_parse_integer(t) matches Ok(l) && l.unsized_literal) ==> spec_parse_integer(
            t,
        )->Ok_0.width >= 32,
{
}

/// A sized literal is exactly as wide as the size in front of its apostrophe.
pub proof fn lemma_sized_width(t: Seq<char>)
    requires
        0 < find(t, '\'', 0) < t.len(),
        spec_parse_integer(t) is Ok,
    ensures
        spec_parse_size(t.subrange(0, find(t, '\'', 0))) == Ok::<usize, Seq<char>>(
            spec_parse_integer(t)->Ok_0.width,
        ),
{
}

/// An unsized decimal literal is wide enough for its magnitude; a signed one
/// keeps a spare top bit, so the magnitude never lands on the sign bit. (Up
/// to the largest width a `usize` holds.)
pub proof fn lemma_decimal_width_fits(t: Seq<char>)
    requires
        spec_parse_integer(t) matches Ok(l) && l.payload matches SPayload::Numeric { magnitude }
            && bit_len(magnitude) < usize::MAX,
    ensures
        ({
            let l = spec_parse_integer(t)->Ok_0;
            let m = l.payload->Numeric_magnitude;
            &&& l.unsized_literal && l.signed ==> m < pow2((l.width - 1) as nat)
            &&& l.unsized_literal ==> m < pow2(l.width as nat)
        }),
{
    let l = spec_parse_integer(t)->Ok_0;
    let m = l.payload->Numeric_magnitude;
    lemma_bit_len_bound(m);
    if l.unsized_literal {
        if bit_len(m) < (l.width - 1) as nat {
            lemma_pow2_strictly_increases(bit_len(m), (l.width - 1) as nat);
        }
        if bit_len(m) < l.width as nat {
            lemma_pow2_strictly_increases(bit_len(m), l.width as nat);
        }
    }
}

/// The number the digit `c` stands for in `base` (either letter case for
/// hex), if it is a digit of that base and neither `x` nor `z`.
pub open spec fn digit_number(c: char, base: Base) -> Option<nat> {
    let d = lower(c);
    match base {
        Base::Binary => if d == '0' || d == '1' {
            Some((d as u32 - '0' as u32) as nat)
        } else {
            None
        },
        Base::Octal => if '0' <= d <= '7' {
            Some((d as u32 - '0' as u32) as nat)
        } else {
            None
        },
        Base::Hex => if '0' <= d <= '9' {
            Some((d as u32 - '0' as u32) as nat)
        } else if 'a' <= d <= 'f' {
            Some((d as u32 - 'a' as u32 + 10) as nat)
        } else {
            None
        },
        Base::Decimal => None,
    }
}

/// The radix of a base.
pub open spec fn radix(base: Base) -> nat {
    match base {
        Base::Binary => 2,
        Base::Octal => 8,
        Base::Decimal => 10,
        Base::Hex => 16,
    }
}

/// The number the digits `ds` spell in `base`, most significant first.
pub open spec fn numeral_value(ds: Seq<char>, base: Base) -> nat
    decreases ds.len(),
{
    if ds.len() == 0 {
        0
    } else {
        numeral_value(ds.drop_last(), base) * radix(base) + match digit_number(ds.last(), base) {
            Some(v) => v,
            None => 0,
        }
    }
}

/// The unsigned value of two bit vectors joined, the first one lowest.
pub proof fn lemma_unsigned_join(a: Seq<LogicBit>, b: Seq<LogicBit>)
    ensures
        unsigned_value(a + b) == unsigned_value(a) + pow2(a.len()) * unsigned_value(b),
    decreases b.len(),
{
    if b.len() == 0 {
        assert(a + b =~= a);
    } else {
        lemma_unsigned_join(a, b.drop_last());
        assert((a + b).drop_last() =~= a + b.drop_last());
        vstd::arithmetic::power2::lemma_pow2_adds(a.len(), (b.len() - 1) as nat);
        assert((a + b).last() == b.last());
        assert(pow2(a.len()) * (unsigned_value(b.drop_last()) + (if b.last() == LogicBit::One {
            pow2((b.len() - 1) as nat) as int
        } else {
            0
        })) == pow2(a.len()) * unsigned_value(b.drop_last()) + pow2(a.len()) * (if b.last()
            == LogicBit::One {
            pow2((b.len() - 1) as nat) as int
        } else {
            0
        })) by (nonlinear_arith);
    }
}

proof fn lemma_one_bit_value(b: LogicBit)
    ensures
        unsigned_value(seq![b]) == if b == LogicBit::One {
            1int
        } else {
            0int
        },
{
    let s = seq![b];
    assert(s.drop_last() =~= Seq::<LogicBit>::empty());
    assert(s.last() == b);
    assert(unsigned_value(Seq::<LogicBit>::empty()) == 0);
    vstd::arithmetic::power2::lemma2_to64();
}

/// `int_bits(v, w)` holds the number `v` when it fits in `w` bits.
pub proof fn lemma_int_bits_value(v: nat, w: nat)
    requires
        v < pow2(w),
    ensures
        unsigned_value(int_bits(v, w)) == v,
        int_bits(v, w).len() == w,
        !has_unknown(int_bits(v, w)),
    decreases w,
{
    if w > 0 {
        vstd::arithmetic::power2::lemma2_to64();
        lemma_pow2_unfold(w);
        lemma_int_bits_value(v / 2, (w - 1) as nat);
        let b = seq![if v % 2 == 0 { LogicBit::Zero } else { LogicBit::One }];
        lemma_unsigned_join(b, int_bits(v / 2, (w - 1) as nat));
        lemma_one_bit_value(b[0]);
        assert(b =~= seq![b[0]]);
        assert(int_bits(v, w) == b + int_bits(v / 2, (w - 1) as nat));
        assert(pow2(1) == 2);
        assert(unsigned_value(b) == v % 2);
        assert(v % 2 + 2 * (v / 2) == v);
        assert(b.len() == 1);
        assert(unsigned_value(int_bits(v / 2, (w - 1) as nat)) == v / 2);
        assert(unsigned_value(int_bits(v, w)) == unsigned_value(b) + pow2(1) * unsigned_value(
            int_bits(v / 2, (w - 1) as nat),
        ));
        vstd::arithmetic::power2::lemma2_to64();
        let t = int_bits(v, w);
        assert forall|i: int| 0 <= i < t.len() implies is_known(#[trigger] t[i]) by {
            if i > 0 {
                assert(t[i] == int_bits(v / 2, (w - 1) as nat)[i - 1]);
            }
        }
    } else {
        vstd::arithmetic::power2::lemma2_to64();
        assert(int_bits(v, w) =~= Seq::<LogicBit>::empty());
    }
}

/// A known digit of a binary, octal or hex literal stands for exactly the
/// bits of its number: one, three or four of them, as many as the radix
/// needs (`2^k` is the radix).
pub proof fn lemma_digit_bits_value(c: char, base: Base)
    requires
        digit_number(c, base) is Some,
    ensures
        digit_bits(c, base) matches Ok(bits) && pow2(bits.len()) == radix(base) && !has_unknown(
            bits,
        ) && unsigned_value(bits) == digit_number(c, base)->Some_0,
{
    vstd::arithmetic::power2::lemma2_to64();
    let d = lower(c);
    let v = digit_number(c, base)->Some_0;
    match base {
        Base::Binary => {
            let b = digit_bits(c, base)->Ok_0;
            lemma_one_bit_value(b[0]);
            assert(b =~= seq![b[0]]);
            assert(forall|i: int| 0 <= i < b.len() ==> is_known(#[trigger] b[i]));
        },
        Base::Octal => {
            lemma_int_bits_value(v, 3);
        },
        Base::Hex => {
            lemma_int_bits_value(v, 4);
        },
        Base::Decimal => {},
    }
}

/// The bits of a binary, octal or hex literal's known digits hold the number
/// the digits spell in that base, `k` bits per digit where `2^k` is the radix.
pub proof fn lemma_radix_bits_value(ds: Seq<char>, base: Base)
    requires
        forall|i: int| 0 <= i < ds.len() ==> #[trigger] digit_number(ds[i], base) is Some,
    ensures
        radix_bits(ds, base) matches Ok(bits) && pow2(bits.len()) == pow(radix(base) as int, ds.len())
            && !has_unknown(bits) && unsigned_value(bits) == numeral_value(ds, base),
    decreases ds.len(),
{
    if ds.len() == 0 {
        vstd::arithmetic::power2::lemma2_to64();
        vstd::arithmetic::power::lemma_pow0(radix(base) as int);
    } else {
        let c = ds.last();
        assert(digit_number(ds[ds.len() - 1], base) is Some);
        assert forall|i: int| 0 <= i < ds.drop_last().len() implies #[trigger] digit_number(
            ds.drop_last()[i],
            base,
        ) is Some by {
            assert(ds.drop_last()[i] == ds[i]);
        }
        lemma_radix_bits_value(ds.drop_last(), base);
        lemma_digit_bits_value(c, base);
        let b = digit_bits(c, base)->Ok_0;
        let r = radix_bits(ds.drop_last(), base)->Ok_0;
        lemma_unsigned_join(b, r);
        vstd::arithmetic::power2::lemma_pow2_adds(b.len(), r.len());
        vstd::arithmetic::power::lemma_pow_adds(radix(base) as int, 1, (ds.len() - 1) as nat);
        vstd::arithmetic::power::lemma_pow1(radix(base) as int);
        let all = b + r;
        assert forall|i: int| 0 <= i < all.len() implies is_known(#[trigger] all[i]) by {
            if i < b.len() {
                assert(is_known(b[i]));
            } else {
                assert(all[i] == r[i - b.len()]);
                assert(is_known(r[i - b.len()]));
            }
        }
        assert(unsigned_value(all) == numeral_value(ds, base)) by {
            assert(numeral_value(ds, base) == numeral_value(ds.drop_last(), base) * radix(base)
                + digit_number(c, base)->Some_0);
            assert(pow2(b.len()) * unsigned_value(r) == unsigned_value(r) * radix(base)) by (nonlinear_arith)
                requires
                    pow2(b.len()) == radix(base),
            ;
        }
    }
}

/// The low `w` bits of a vector, with zeros above its top.
pub open spec fn low_window(bits: Seq<LogicBit>, w: nat) -> Seq<LogicBit> {
    Seq::new(w, |i: int| if i < bits.len() { bits[i] } else { LogicBit::Zero })
}

/// The low `w` bits of a known vector hold its number modulo `2^w`.
pub proof fn lemma_low_window_value(bits: Seq<LogicBit>, w: nat)
    requires
        !has_unknown(bits),
    ensures
        unsigned_value(low_window(bits, w)) == unsigned_value(bits) % (pow2(w) as int),
{
    let u = unsigned_value(bits);
    crate::value::lemma_unsigned_bound(bits);
    vstd::arithmetic::power2::lemma_pow2_pos(w);
    if w >= bits.len() {
        crate::value::lemma_extended_value(bits, false, w);
        assert(low_window(bits, w) =~= crate::value::extended(bits, false, w));
        if bits.len() < w {
            lemma_pow2_strictly_increases(bits.len(), w);
        }
        vstd::arithmetic::div_mod::lemma_fundamental_div_mod_converse(u, pow2(w) as int, 0, u);
    } else {
        let lo = bits.take(w as int);
        let hi = bits.skip(w as int);
        assert(bits =~= lo + hi);
        lemma_unsigned_join(lo, hi);
        crate::value::lemma_unsigned_bound(lo);
        crate::value::lemma_unsigned_bound(hi);
        assert(low_window(bits, w) =~= lo);
        assert(lo.len() == w);
        assert(u == unsigned_value(hi) * (pow2(w) as int) + unsigned_value(lo)) by {
            assert(unsigned_value(lo + hi) == unsigned_value(lo) + pow2(w) * unsigned_value(hi));
            assert(pow2(w) * unsigned_value(hi) == unsigned_value(hi) * (pow2(w) as int))
                by (nonlinear_arith);
        }
        vstd::arithmetic::div_mod::lemma_fundamental_div_mod_converse(
            u,
            pow2(w) as int,
            unsigned_value(hi),
            unsigned_value(lo),
        );
    }
}

/// A sized binary, octal or hex literal whose digits are all known holds the
/// number its digits spell in that base, cut to the literal's width.
pub proof fn lemma_sized_radix_literal_value(w: usize, signed: bool, base: Base, ds: Seq<char>)
    requires
        ds.len() > 0,
        forall|i: int| 0 <= i < ds.len() ==> #[trigger] digit_number(ds[i], base) is Some,
    ensures
        based_radix(Some(w), signed, base, ds) matches Ok(l) && l.width == w && l.signed == signed
            && l.base == base && unsigned_value(crate::value::literal_bits(l)) == (numeral_value(
            ds,
            base,
        ) as int) % (pow2(w as nat) as int),
{
    lemma_radix_bits_value(ds, base);
    let bits = radix_bits(ds, base)->Ok_0;
    assert(digit_number(ds[0], base) is Some);
    assert(extension_bit(ds[0]) == LogicBit::Zero);
    let l = based_radix(Some(w), signed, base, ds)->Ok_0;
    assert(crate::value::literal_bits(l) =~= low_window(bits, w as nat));
    lemma_low_window_value(bits, w as nat);
}

/// Text without underscores is left as it is.
proof fn lemma_strip_no_underscores(s: Seq<char>)
    requires
        forall|i: int| 0 <= i < s.len() ==> #[trigger] s[i] != '_',
    ensures
        strip_underscores(s) == s,
    decreases s.len(),
{
    if s.len() > 0 {
        let d = s.drop_last();
        assert forall|i: int| 0 <= i < d.len() implies #[trigger] d[i] != '_' by {
            assert(d[i] == s[i]);
        }
        lemma_strip_no_underscores(d);
        assert(s[s.len() - 1] != '_');
        assert(d.push(s.last()) =~= s);
    }
}

/// The bits of a decimal literal's magnitude `m` at width `w` hold
/// `m` modulo `2^w`.
proof fn lemma_numeric_bits_value(l: SLiteral)
    requires
        l.payload is Numeric,
    ensures
        unsigned_value(crate::value::literal_bits(l)) == (l.payload->Numeric_magnitude as int) % (
        pow2(l.width as nat) as int),
{
    let m = l.payload->Numeric_magnitude;
    assert(crate::value::literal_bits(l) =~= crate::value::int_bits(m as int, l.width as nat));
    crate::value::lemma_int_bits_wrap(m as int, l.width as nat);
}

/// A sized decimal literal holds the number its digits spell, cut to its
/// width.
pub proof fn lemma_sized_decimal_literal_value(w: usize, signed: bool, ds: Seq<char>)
    requires
        ds.len() > 0,
        crate::bignum::all_decimal_digits(ds),
    ensures
        based_decimal(Some(w), signed, ds) matches Ok(l) && l.width == w && l.signed == signed
            && unsigned_value(crate::value::literal_bits(l)) == (crate::bignum::decimal_value(ds)
            as int) % (pow2(w as nat) as int),
{
    assert(!is_x_digit(ds[0]) && !is_z_digit(ds[0]));
    lemma_numeric_bits_value(based_decimal(Some(w), signed, ds)->Ok_0);
}

/// An unsized decimal literal (digits alone) is a signed value wide enough
/// to hold the number its digits spell with a zero sign bit: both its
/// unsigned and its signed reading give that number.
pub proof fn lemma_unsized_decimal_literal_value(t: Seq<char>)
    requires
        t.len() > 0,
        crate::bignum::all_decimal_digits(t),
        crate::bignum::bit_len(crate::bignum::decimal_value(t)) < usize::MAX,
    ensures
        spec_parse_integer(t) matches Ok(l) && l.signed && l.unsized_literal && unsigned_value(
            crate::value::literal_bits(l),
        ) == crate::bignum::decimal_value(t) && crate::value::int_value(
            crate::value::literal_bits(l),
            true,
        ) == crate::bignum::decimal_value(t),
{
    lemma_find(t, '\'', 0);
    assert(find(t, '\'', 0) == t.len()) by {
        if find(t, '\'', 0) < t.len() {
            assert('0' <= t[find(t, '\'', 0)] <= '9');
        }
    }
    assert forall|i: int| 0 <= i < t.len() implies #[trigger] t[i] != '_' by {
        assert('0' <= t[i] <= '9');
    }
    lemma_strip_no_underscores(t);
    assert(!starts_with(t, '_')) by {
        assert('0' <= t[0] <= '9');
    }
    let l = spec_parse_integer(t)->Ok_0;
    let m = crate::bignum::decimal_value(t);
    lemma_decimal_width_fits(t);
    lemma_numeric_bits_value(l);
    vstd::arithmetic::power2::lemma_pow2_pos(l.width as nat);
    vstd::arithmetic::div_mod::lemma_fundamental_div_mod_converse(
        m as int,
        pow2(l.width as nat) as int,
        0,
        m as int,
    );
    let bits = crate::value::literal_bits(l);
    vstd::arithmetic::power2::lemma_pow2_pos((l.width - 1) as nat);
    vstd::arithmetic::div_mod::lemma_fundamental_div_mod_converse(
        m as int,
        pow2((l.width - 1) as nat) as int,
        0,
        m as int,
    );
    assert(bits.last() == crate::value::nat_bit(m, (l.width - 1) as nat));
}

} // verus!

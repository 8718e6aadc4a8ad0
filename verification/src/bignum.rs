//! Arbitrary-precision numbers: magnitudes of decimal literals, held in
//! `num_bigint::BigUint`, and the signed integers of evaluator arithmetic,
//! held in `num_bigint::BigInt`.
use num_bigint::{BigInt, BigUint, Sign};
use vstd::arithmetic::power::pow;
use vstd::arithmetic::power2::{lemma_pow2_pos, lemma_pow2_unfold, pow2};
use vstd::prelude::*;

verus! {

/// `num_bigint::BigUint`, an arbitrary-precision natural number; its contents
/// are seen only through `biguint_value`.
#[verifier::external_type_specification]
#[verifier::external_body]
pub struct ExBigUint(BigUint);

/// The natural number that a `BigUint` holds.
pub uninterp spec fn biguint_value(b: BigUint) -> nat;

/// `num_bigint::BigInt`, an arbitrary-precision integer; its contents are seen
/// only through `bigint_value`.
#[verifier::external_type_specification]
#[verifier::external_body]
pub struct ExBigInt(BigInt);

/// The integer that a `BigInt` holds.
pub uninterp spec fn bigint_value(b: BigInt) -> int;

/// `BigInt::from(u8)`: the integer `n`.
#[verifier::external_body]
pub(crate) fn bigint_small(n: u8) -> (r: BigInt)
    ensures
        bigint_value(r) == n as int,
{
    BigInt::from(n)
}

/// `&a + &b`: the sum.
#[verifier::external_body]
pub(crate) fn bigint_add(a: &BigInt, b: &BigInt) -> (r: BigInt)
    ensures
        bigint_value(r) == bigint_value(*a) + bigint_value(*b),
{
    a + b
}

/// `&a - &b`: the difference.
#[verifier::external_body]
pub(crate) fn bigint_sub(a: &BigInt, b: &BigInt) -> (r: BigInt)
    ensures
        bigint_value(r) == bigint_value(*a) - bigint_value(*b),
{
    a - b
}

/// `&a * &b`: the product.
#[verifier::external_body]
pub(crate) fn bigint_mul(a: &BigInt, b: &BigInt) -> (r: BigInt)
    ensures
        bigint_value(r) == bigint_value(*a) * bigint_value(*b),
{
    a * b
}

/// `-a`: the negation.
#[verifier::external_body]
pub(crate) fn bigint_neg(a: &BigInt) -> (r: BigInt)
    ensures
        bigint_value(r) == -bigint_value(*a),
{
    -a
}

pub open spec fn abs(a: int) -> nat {
    if a < 0 {
        (-a) as nat
    } else {
        a as nat
    }
}

/// Quotient rounded toward zero, as Rust's integer `/` rounds.
pub open spec fn trunc_div(a: int, b: int) -> int {
    let q = (abs(a) / abs(b)) as int;
    if (a < 0) != (b < 0) {
        -q
    } else {
        q
    }
}

/// Remainder of `trunc_div`, with the sign of the dividend.
pub open spec fn trunc_rem(a: int, b: int) -> int {
    let m = (abs(a) % abs(b)) as int;
    if a < 0 {
        -m
    } else {
        m
    }
}

/// `&a / &b`: the quotient rounded toward zero (it panics on a zero divisor,
/// which is ruled out).
#[verifier::external_body]
pub(crate) fn bigint_div(a: &BigInt, b: &BigInt) -> (r: BigInt)
    requires
        bigint_value(*b) != 0,
    ensures
        bigint_value(r) == trunc_div(bigint_value(*a), bigint_value(*b)),
{
    a / b
}

/// `&a % &b`: the remainder with the sign of `a` (it panics on a zero
/// divisor, which is ruled out).
#[verifier::external_body]
pub(crate) fn bigint_rem(a: &BigInt, b: &BigInt) -> (r: BigInt)
    requires
        bigint_value(*b) != 0,
    ensures
        bigint_value(r) == trunc_rem(bigint_value(*a), bigint_value(*b)),
{
    a % b
}

/// `BigInt::from(usize)`: the integer `n`.
#[verifier::external_body]
pub(crate) fn bigint_from_usize(n: usize) -> (r: BigInt)
    ensures
        bigint_value(r) == n as int,
{
    BigInt::from(n)
}

/// `usize::try_from(&BigInt)`: the number as a `usize` when it is one.
#[verifier::external_body]
pub(crate) fn bigint_to_usize(a: &BigInt) -> (r: Option<usize>)
    ensures
        r is Some <==> 0 <= bigint_value(*a) <= usize::MAX,
        r matches Some(v) ==> v as int == bigint_value(*a),
{
    usize::try_from(a).ok()
}

/// Decimal text of an integer: a `-` before the digits of a negative one.
pub open spec fn int_decimal(v: int) -> Seq<char> {
    if v < 0 {
        seq!['-'] + decimal_string(abs(v))
    } else {
        decimal_string(v as nat)
    }
}

/// `BigInt::to_str_radix(10)`: the decimal digits, after a `-` when negative.
#[verifier::external_body]
pub(crate) fn bigint_decimal(a: &BigInt) -> (r: String)
    ensures
        r@ == int_decimal(bigint_value(*a)),
{
    a.to_str_radix(10)
}

/// `BigInt::sign`, told apart as -1, 0 or 1.
#[verifier::external_body]
pub(crate) fn bigint_signum(a: &BigInt) -> (r: i8)
    ensures
        r == (if bigint_value(*a) < 0 {
            -1int
        } else if bigint_value(*a) == 0 {
            0int
        } else {
            1int
        }),
{
    match a.sign() {
        Sign::Minus => -1,
        Sign::NoSign => 0,
        Sign::Plus => 1,
    }
}

/// `BigInt::magnitude`: the absolute value, as a `BigUint`.
#[verifier::external_body]
pub(crate) fn bigint_magnitude(a: &BigInt) -> (r: BigUint)
    ensures
        biguint_value(r) == abs(bigint_value(*a)),
{
    a.magnitude().clone()
}

/// `BigInt::from(BigUint)`: the same number, as a `BigInt`.
#[verifier::external_body]
pub(crate) fn bigint_from_biguint(a: BigUint) -> (r: BigInt)
    ensures
        bigint_value(r) == biguint_value(a) as int,
{
    BigInt::from(a)
}

/// `BigUint::from(1u8) << e`: two to the power `e`.
#[verifier::external_body]
pub(crate) fn biguint_pow2(e: usize) -> (r: BigUint)
    ensures
        biguint_value(r) == pow2(e as nat),
{
    BigUint::from(1u8) << e
}

/// `BigUint::modpow`: `b` to the power `e`, modulo `m` (it panics on a zero
/// modulus, which is ruled out).
#[verifier::external_body]
pub(crate) fn biguint_modpow(b: &BigUint, e: &BigUint, m: &BigUint) -> (r: BigUint)
    requires
        biguint_value(*m) != 0,
    ensures
        biguint_value(r) == pow(biguint_value(*b) as int, biguint_value(*e)) % (biguint_value(
            *m,
        ) as int),
{
    b.modpow(e, m)
}

/// `BigInt::bit`: bit `i` of `a` in two's complement, which for every integer
/// is the parity of `a` divided by `2^i` rounded down.
#[verifier::external_body]
pub(crate) fn bigint_bit(a: &BigInt, i: u64) -> (r: bool)
    ensures
        r == ((bigint_value(*a) / (pow2(i as nat) as int)) % 2 == 1),
{
    a.bit(i)
}

pub open spec fn digit_value(c: char) -> nat {
    (c as u32 - '0' as u32) as nat
}

/// Value of a string of decimal digits (most significant first).
pub open spec fn decimal_value(d: Seq<char>) -> nat
    decreases d.len(),
{
    if d.len() == 0 {
        0
    } else {
        decimal_value(d.drop_last()) * 10 + digit_value(d.last())
    }
}

pub open spec fn all_decimal_digits(d: Seq<char>) -> bool {
    forall|i: int| 0 <= i < d.len() ==> '0' <= #[trigger] d[i] <= '9'
}

/// Number of significant bits of `n` (0 for 0).
pub open spec fn bit_len(n: nat) -> nat
    decreases n,
{
    if n == 0 {
        0
    } else {
        1 + bit_len(n / 2)
    }
}

pub open spec fn digit_char(d: nat) -> char {
    ('0' as u32 + d) as char
}

/// Canonical decimal rendering of `n` (no leading zeros; `0` for zero).
pub open spec fn decimal_string(n: nat) -> Seq<char>
    decreases n,
{
    if n < 10 {
        seq![digit_char(n)]
    } else {
        decimal_string(n / 10).push(digit_char(n % 10))
    }
}

/// `BigUint::parse_bytes(digits, 10)`. For a non-empty string of ASCII
/// decimal digits it returns the number those digits denote.
#[verifier::external_body]
pub(crate) fn parse_decimal(digits: &str) -> (r: Option<BigUint>)
    requires
        digits@.len() > 0,
        all_decimal_digits(digits@),
    ensures
        r is Some,
        biguint_value(r.unwrap()) == decimal_value(digits@),
{
    BigUint::parse_bytes(digits.as_bytes(), 10)
}

/// `BigUint::bits`: the number of significant bits.
#[verifier::external_body]
pub(crate) fn biguint_bits(b: &BigUint) -> (r: u64)
    ensures
        r == bit_len(biguint_value(*b)),
{
    b.bits()
}

/// `BigUint::bit`: whether bit `i` of `b` is set.
#[verifier::external_body]
pub(crate) fn biguint_bit(b: &BigUint, i: u64) -> (r: bool)
    ensures
        r == ((biguint_value(*b) / pow2(i as nat)) % 2 == 1),
{
    b.bit(i)
}

/// `BigUint::to_str_radix(10)`: the canonical decimal digits.
#[verifier::external_body]
pub(crate) fn biguint_decimal(b: &BigUint) -> (r: String)
    ensures
        r@ == decimal_string(biguint_value(*b)),
{
    b.to_str_radix(10)
}

/// Reading back the canonical decimal digits of `n` gives `n`: the digits the
/// renderer prints for a magnitude denote that magnitude.
pub proof fn lemma_decimal_round_trip(n: nat)
    ensures
        decimal_value(decimal_string(n)) == n,
        all_decimal_digits(decimal_string(n)),
    decreases n,
{
    let d = n % 10;
    assert(digit_value(digit_char(d)) == d);
    if n >= 10 {
        lemma_decimal_round_trip(n / 10);
        let s = decimal_string(n);
        assert(s.drop_last() == decimal_string(n / 10));
        assert(s.last() == digit_char(d));
        assert(decimal_value(s) == decimal_value(s.drop_last()) * 10 + digit_value(s.last()));
        assert(n == (n / 10) * 10 + n % 10);
    } else {
        let s = decimal_string(n);
        assert(s.drop_last() =~= Seq::<char>::empty());
        assert(decimal_value(s) == decimal_value(s.drop_last()) * 10 + digit_value(s.last()));
    }
}

/// `n` takes `bit_len(n)` bits: it is below `2^bit_len(n)`.
pub proof fn lemma_bit_len_bound(n: nat)
    ensures
        n < pow2(bit_len(n)),
    decreases n,
{
    if n == 0 {
        lemma_pow2_pos(0);
    } else {
        lemma_bit_len_bound(n / 2);
        lemma_pow2_unfold(bit_len(n));
    }
}

} // verus!

//! The text a value is shown as: `<width>'<s><base><digits>` in the value's
//! display base (`8'b00011110`, `32'sd5`, `-4'sd3`, `12'hx0F`), or a quoted
//! string for a value that came from string literals.
use crate::ast::{Base, LogicBit};
use crate::bignum::{bigint_magnitude, bigint_signum, biguint_decimal, decimal_string, abs};
use crate::render::decimal_text;
use crate::text::{append_str, owned, push_char};
use crate::value::{has_unknown, int_value, is_known, unsigned_value, DisplayStyle, IntegerValue};
use vstd::arithmetic::power2::{lemma_pow2_unfold, pow2};
use vstd::prelude::*;

verus! {

/// The mathematical form of an `IntegerValue`.
pub struct SVal {
    pub width: usize,
    pub signed: bool,
    pub base: Base,
    pub locked: bool,
    pub style: DisplayStyle,
    pub bits: Seq<LogicBit>,
}

impl View for IntegerValue {
    type V = SVal;

    open spec fn view(&self) -> SVal {
        SVal {
            width: self.width,
            signed: self.signed,
            base: self.base,
            locked: self.base_locked,
            style: self.display_style,
            bits: self.bits@,
        }
    }
}

pub open spec fn all_are(bits: Seq<LogicBit>, b: LogicBit) -> bool {
    forall|i: int| 0 <= i < bits.len() ==> #[trigger] bits[i] == b
}

pub open spec fn hex_digit(v: int) -> char {
    if v == 0 { '0' } else if v == 1 { '1' } else if v == 2 { '2' } else if v == 3 { '3' }
    else if v == 4 { '4' } else if v == 5 { '5' } else if v == 6 { '6' } else if v == 7 { '7' }
    else if v == 8 { '8' } else if v == 9 { '9' } else if v == 10 { 'a' } else if v == 11 { 'b' }
    else if v == 12 { 'c' } else if v == 13 { 'd' } else if v == 14 { 'e' } else { 'f' }
}

/// One digit for a group of bits: its value when every bit is known; `x` or
/// `z` when all are `x` or all are `z`; `X` for any other mix.
pub open spec fn group_char(g: Seq<LogicBit>) -> char {
    if !has_unknown(g) {
        hex_digit(unsigned_value(g))
    } else if all_are(g, LogicBit::X) {
        'x'
    } else if all_are(g, LogicBit::Z) {
        'z'
    } else {
        'X'
    }
}

/// The digits of `bits` in groups of `g` bits (1, 3 or 4), most significant first.
pub open spec fn group_digits(bits: Seq<LogicBit>, g: nat) -> Seq<char>
    decreases bits.len(),
{
    if bits.len() == 0 || g == 0 {
        Seq::empty()
    } else if bits.len() <= g {
        seq![group_char(bits)]
    } else {
        group_digits(bits.skip(g as int), g).push(group_char(bits.take(g as int)))
    }
}

pub open spec fn group_bits(base: Base) -> nat {
    match base {
        Base::Binary => 1,
        Base::Octal => 3,
        _ => 4,
    }
}

pub open spec fn base_letter(base: Base) -> char {
    match base {
        Base::Binary => 'b',
        Base::Octal => 'o',
        Base::Decimal => 'd',
        Base::Hex => 'h',
    }
}

/// The digits of a value in its base; a decimal with unknown bits is a single
/// `x`, `z` or `X` as for a digit group.
pub open spec fn value_digits(v: SVal) -> Seq<char> {
    if v.base == Base::Decimal {
        if has_unknown(v.bits) {
            seq![group_char(v.bits)]
        } else {
            decimal_string(abs(int_value(v.bits, v.signed)))
        }
    } else {
        group_digits(v.bits, group_bits(v.base))
    }
}

/// The characters one byte of a string value is shown as.
pub open spec fn byte_text(b: int) -> Seq<char> {
    if b == 34 {
        seq!['\\', '"']
    } else if b == 92 {
        seq!['\\', '\\']
    } else {
        seq![b as char]
    }
}

/// The bytes of `bits` (a whole number of bytes), most significant first.
pub open spec fn string_text(bits: Seq<LogicBit>) -> Seq<char>
    decreases bits.len(),
{
    if bits.len() < 8 {
        Seq::empty()
    } else {
        string_text(bits.skip(8)) + byte_text(unsigned_value(bits.take(8)))
    }
}

pub open spec fn shows_as_string(v: SVal) -> bool {
    v.style == DisplayStyle::String && !has_unknown(v.bits) && v.bits.len() > 0 && v.bits.len() % 8
        == 0
}

/// `v` with its base replaced by `base`.
pub open spec fn rebased(v: SVal, base: Base) -> SVal {
    SVal { width: v.width, signed: v.signed, base: base, locked: v.locked, style: v.style, bits: v.bits }
}

/// Whether `v` shown in `base` is a negative decimal.
pub open spec fn negative_decimal(v: SVal, base: Base) -> bool {
    base == Base::Decimal && !has_unknown(v.bits) && int_value(v.bits, v.signed) < 0
}

/// How `$display` shows a value without a format: its digits in `base`,
/// after a `-` when it is a negative decimal.
pub open spec fn display_text(v: SVal, base: Base) -> Seq<char> {
    (if negative_decimal(v, base) {
        seq!['-']
    } else {
        Seq::empty()
    }) + value_digits(rebased(v, base))
}

/// How a value is shown.
pub open spec fn canonical_text(v: SVal) -> Seq<char> {
    if shows_as_string(v) {
        seq!['"'] + string_text(v.bits) + seq!['"']
    } else {
        let negative = v.base == Base::Decimal && !has_unknown(v.bits) && int_value(v.bits, v.signed)
            < 0;
        (if negative {
            seq!['-']
        } else {
            Seq::empty()
        }) + decimal_string(v.width as nat) + seq!['\''] + (if v.signed {
            seq!['s']
        } else {
            Seq::empty()
        }) + seq![base_letter(v.base)] + value_digits(v)
    }
}

fn hex_digit_char(v: u32) -> (r: char)
    requires
        v < 16,
    ensures
        r == hex_digit(v as int),
{
    match v {
        0 => '0', 1 => '1', 2 => '2', 3 => '3', 4 => '4', 5 => '5', 6 => '6', 7 => '7',
        8 => '8', 9 => '9', 10 => 'a', 11 => 'b', 12 => 'c', 13 => 'd', 14 => 'e', _ => 'f',
    }
}

/// The digit of `bits[start..end]`, a group of at most 4 bits.
fn group_char_at(bits: &Vec<LogicBit>, start: usize, end: usize) -> (r: char)
    requires
        start < end <= bits@.len(),
        end - start <= 8,
    ensures
        r == group_char(bits@.subrange(start as int, end as int)),
        !has_unknown(bits@.subrange(start as int, end as int)) ==> unsigned_value(
            bits@.subrange(start as int, end as int),
        ) < 256,
{
    let ghost g = bits@.subrange(start as int, end as int);
    let mut value: u32 = 0;
    let mut weight: u32 = 1;
    let mut known = true;
    let mut all_x = true;
    let mut all_z = true;
    let mut k: usize = start;
    proof {
        assert(pow2(0) == 1) by {
            vstd::arithmetic::power2::lemma2_to64();
        }
    }
    while k < end
        invariant
            start <= k <= end,
            end - start <= 8,
            end <= bits@.len(),
            g == bits@.subrange(start as int, end as int),
            known == !has_unknown(g.take(k - start)),
            all_x == all_are(g.take(k - start), LogicBit::X),
            all_z == all_are(g.take(k - start), LogicBit::Z),
            weight as nat == pow2((k - start) as nat),
            weight <= 256,
            known ==> value as int == unsigned_value(g.take(k - start)),
            value < weight,
        decreases end - k,
    {
        let i = k - start;
        assert(weight <= 128) by {
            vstd::arithmetic::power2::lemma2_to64();
            assert(i < 8);
        }
        proof {
            assert(g.take(i + 1).drop_last() =~= g.take(i as int));
            assert(g.take(i + 1).last() == bits@[k as int]);
            lemma_pow2_unfold((i + 1) as nat);
            assert forall|j: int| 0 <= j < i + 1 implies #[trigger] g.take(i + 1)[j] == if j < i {
                g.take(i as int)[j]
            } else {
                bits@[k as int]
            } by {}
        }
        let b = bits[k];
        match b {
            LogicBit::One => {
                all_x = false;
                all_z = false;
                value = value + weight;
            },
            LogicBit::Zero => {
                all_x = false;
                all_z = false;
            },
            LogicBit::X => {
                known = false;
                all_z = false;
            },
            LogicBit::Z => {
                known = false;
                all_x = false;
            },
        }
        proof {
            if !is_known(b) {
                assert(!is_known(g.take(i + 1)[i as int]));
            }
            if known {
                assert forall|j: int| 0 <= j < i + 1 implies is_known(#[trigger] g.take(i + 1)[j]) by {
                    if j < i {
                        assert(g.take(i as int)[j] == g.take(i + 1)[j]);
                    }
                }
            }
            if all_are(g.take(i as int), LogicBit::X) && b == LogicBit::X {
                assert forall|j: int| 0 <= j < i + 1 implies #[trigger] g.take(i + 1)[j]
                    == LogicBit::X by {
                    if j < i {
                        assert(g.take(i as int)[j] == g.take(i + 1)[j]);
                    }
                }
            }
            if all_are(g.take(i as int), LogicBit::Z) && b == LogicBit::Z {
                assert forall|j: int| 0 <= j < i + 1 implies #[trigger] g.take(i + 1)[j]
                    == LogicBit::Z by {
                    if j < i {
                        assert(g.take(i as int)[j] == g.take(i + 1)[j]);
                    }
                }
            }
        }
        weight = weight * 2;
        k = k + 1;
    }
    assert(g.take((end - start) as int) =~= g);
    if known {
        hex_digit_char(if value < 16 { value } else { 15 })
    } else if all_x {
        'x'
    } else if all_z {
        'z'
    } else {
        'X'
    }
}

/// A `String` of the characters `v`.
fn string_of_chars(v: &Vec<char>) -> (r: String)
    ensures
        r@ == v@,
{
    let mut r = String::new();
    let mut i: usize = 0;
    while i < v.len()
        invariant
            i <= v@.len(),
            r@ == v@.take(i as int),
        decreases v@.len() - i,
    {
        push_char(&mut r, v[i]);
        i = i + 1;
        assert(r@ =~= v@.take(i as int));
    }
    assert(v@.take(i as int) =~= v@);
    r
}

/// The digits of `bits` in groups of `g` bits, most significant first.
fn digits_of(bits: &Vec<LogicBit>, g: usize) -> (r: Vec<char>)
    requires
        1 <= g <= 4,
    ensures
        r@ == group_digits(bits@, g as nat),
{
    let n = bits.len();
    let mut acc: Vec<char> = Vec::new();
    let mut pos: usize = 0;
    assert(bits@.skip(0) =~= bits@);
    assert(group_digits(bits@, g as nat) + acc@ =~= group_digits(bits@, g as nat));
    while pos < n
        invariant
            pos <= n == bits@.len(),
            1 <= g <= 4,
            group_digits(bits@, g as nat) == group_digits(bits@.skip(pos as int), g as nat) + acc@,
        decreases n - pos,
    {
        let ghost rest = bits@.skip(pos as int);
        if n - pos <= g {
            let c = group_char_at(bits, pos, n);
            assert(bits@.subrange(pos as int, n as int) =~= rest);
            acc.insert(0, c);
            proof {
                assert(group_digits(bits@.skip(n as int), g as nat) =~= Seq::<char>::empty());
                assert(acc@ =~= seq![c] + (acc@.subrange(1, acc@.len() as int)));
            }
            assert(group_digits(bits@, g as nat) =~= group_digits(bits@.skip(n as int), g as nat)
                + acc@);
            pos = n;
        } else {
            let c = group_char_at(bits, pos, pos + g);
            assert(bits@.subrange(pos as int, pos + g) =~= rest.take(g as int));
            assert(rest.skip(g as int) =~= bits@.skip(pos + g));
            let ghost before = acc@;
            acc.insert(0, c);
            assert(acc@ =~= seq![c] + before);
            assert(group_digits(rest, g as nat) == group_digits(rest.skip(g as int), g as nat).push(c));
            assert(group_digits(bits@, g as nat) =~= group_digits(bits@.skip(pos + g), g as nat)
                + acc@);
            pos = pos + g;
        }
    }
    assert(bits@.skip(n as int) =~= Seq::<LogicBit>::empty());
    assert(group_digits(bits@, g as nat) =~= acc@);
    acc
}

/// The byte `bits[start..start + 8]`, all of whose bits are known.
fn byte_at(bits: &Vec<LogicBit>, start: usize) -> (r: u32)
    requires
        start + 8 <= bits@.len(),
        !has_unknown(bits@.subrange(start as int, start + 8)),
    ensures
        r as int == unsigned_value(bits@.subrange(start as int, start + 8)),
        r < 256,
{
    let ghost g = bits@.subrange(start as int, start + 8);
    let mut value: u32 = 0;
    let mut weight: u32 = 1;
    let mut k: usize = 0;
    let n = bits.len();
    proof {
        assert(pow2(0) == 1) by {
            vstd::arithmetic::power2::lemma2_to64();
        }
    }
    while k < 8
        invariant
            k <= 8,
            n == bits@.len(),
            start + 8 <= bits@.len(),
            g == bits@.subrange(start as int, start + 8),
            !has_unknown(g),
            weight as nat == pow2(k as nat),
            value < weight,
            value as int == unsigned_value(g.take(k as int)),
        decreases 8 - k,
    {
        assert(weight <= 128) by {
            vstd::arithmetic::power2::lemma2_to64();
        }
        proof {
            assert(g.take(k + 1).drop_last() =~= g.take(k as int));
            assert(g.take(k + 1).last() == bits@[start + k]);
            lemma_pow2_unfold((k + 1) as nat);
        }
        if bits[start + k] == LogicBit::One {
            value = value + weight;
        }
        weight = weight * 2;
        k = k + 1;
    }
    assert(g.take(8) =~= g);
    assert(weight == 256) by {
        vstd::arithmetic::power2::lemma2_to64();
    }
    value
}

proof fn lemma_no_unknown_sub(bits: Seq<LogicBit>, a: int, b: int)
    requires
        0 <= a <= b <= bits.len(),
        !has_unknown(bits),
    ensures
        !has_unknown(bits.subrange(a, b)),
        !has_unknown(bits.skip(a)),
{
    assert forall|i: int| 0 <= i < b - a implies is_known(#[trigger] bits.subrange(a, b)[i]) by {
        assert(is_known(bits[a + i]));
    }
    assert forall|i: int| 0 <= i < bits.len() - a implies is_known(#[trigger] bits.skip(a)[i]) by {
        assert(is_known(bits[a + i]));
    }
}

fn byte_chars(b: u32) -> (r: Vec<char>)
    requires
        b < 256,
    ensures
        r@ == byte_text(b as int),
{
    if b == 34 {
        vec!['\\', '"']
    } else if b == 92 {
        vec!['\\', '\\']
    } else {
        let c = (b as u8) as char;
        assert(c == (b as int) as char);
        vec![c]
    }
}

/// The text of a string value: its bytes, most significant first.
fn string_chars(bits: &Vec<LogicBit>) -> (r: Vec<char>)
    requires
        !has_unknown(bits@),
    ensures
        r@ == string_text(bits@),
{
    let n = bits.len();
    let mut acc: Vec<char> = Vec::new();
    let mut pos: usize = 0;
    assert(bits@.skip(0) =~= bits@);
    assert(string_text(bits@) + acc@ =~= string_text(bits@));
    while n - pos >= 8
        invariant
            pos <= n == bits@.len(),
            !has_unknown(bits@),
            string_text(bits@) == string_text(bits@.skip(pos as int)) + acc@,
        decreases n - pos,
    {
        let ghost rest = bits@.skip(pos as int);
        proof {
            lemma_no_unknown_sub(bits@, pos as int, pos + 8);
        }
        let b = byte_at(bits, pos);
        assert(bits@.subrange(pos as int, pos + 8) =~= rest.take(8));
        assert(rest.skip(8) =~= bits@.skip(pos + 8));
        let piece = byte_chars(b);
        let mut next = piece;
        let mut j: usize = 0;
        let ghost p = next@;
        while j < acc.len()
            invariant
                j <= acc@.len(),
                next@ == p + acc@.take(j as int),
            decreases acc@.len() - j,
        {
            next.push(acc[j]);
            j = j + 1;
            assert(next@ =~= p + acc@.take(j as int));
        }
        assert(acc@.take(j as int) =~= acc@);
        acc = next;
        pos = pos + 8;
    }
    assert(string_text(bits@.skip(pos as int)) =~= Seq::<char>::empty());
    assert(string_text(bits@) =~= acc@);
    acc
}

/// The digits of `v` in `base`, and whether a decimal rendering is negative.
fn digits_in(v: &IntegerValue, base: Base) -> (r: (Vec<char>, bool))
    ensures
        r.0@ == value_digits(rebased(v@, base)),
        r.1 == negative_decimal(v@, base),
{
    let mut digits: Vec<char> = Vec::new();
    let mut negative = false;
    match base {
        Base::Decimal => {
            if v.has_unknown_bits() {
                digits = vec![group_char_whole(&v.bits)];
            } else {
                let x = v.as_bigint(v.signed);
                negative = bigint_signum(&x) < 0;
                let m = bigint_magnitude(&x);
                let t = biguint_decimal(&m);
                digits = crate::text::chars_of(t.as_str());
            }
        },
        Base::Binary => {
            digits = digits_of(&v.bits, 1);
        },
        Base::Octal => {
            digits = digits_of(&v.bits, 3);
        },
        Base::Hex => {
            digits = digits_of(&v.bits, 4);
        },
    }
    (digits, negative)
}

/// How `$display` shows a value without a format: its digits in `base`,
/// after a `-` when it is a negative decimal.
pub fn display_text_of(v: &IntegerValue, base: Base) -> (r: String)
    ensures
        r@ == display_text(v@, base),
{
    let (digits, negative) = digits_in(v, base);
    let mut r = String::new();
    if negative {
        push_char(&mut r, '-');
    }
    append_str(&mut r, string_of_chars(&digits).as_str());
    assert(r@ =~= display_text(v@, base));
    r
}

/// The text a value is shown as.
pub fn canonical(v: &IntegerValue) -> (r: String)
    ensures
        r@ == canonical_text(v@),
{
    let n = v.bits.len();
    if v.display_style == DisplayStyle::String && n > 0 && n % 8 == 0 && !v.has_unknown_bits() {
        let text = string_chars(&v.bits);
        let mut r = owned("\"");
        append_str(&mut r, string_of_chars(&text).as_str());
        append_str(&mut r, "\"");
        proof {
            reveal_strlit("\"");
        }
        return r;
    }
    let mut r = String::new();
    let (digits, negative) = digits_in(v, v.base);
    assert(rebased(v@, v.base) == v@);
    if negative {
        push_char(&mut r, '-');
    }
    append_str(&mut r, decimal_text(v.width).as_str());
    push_char(&mut r, '\'');
    if v.signed {
        push_char(&mut r, 's');
    }
    push_char(
        &mut r,
        match v.base {
            Base::Binary => 'b',
            Base::Octal => 'o',
            Base::Decimal => 'd',
            Base::Hex => 'h',
        },
    );
    append_str(&mut r, string_of_chars(&digits).as_str());
    proof {
        reveal_strlit("\"");
    }
    assert(r@ =~= canonical_text(v@));
    r
}

/// The single digit of a vector with unknown bits: `x`, `z` or `X`.
fn group_char_whole(bits: &Vec<LogicBit>) -> (r: char)
    requires
        has_unknown(bits@),
    ensures
        r == group_char(bits@),
{
    let mut all_x = true;
    let mut all_z = true;
    let mut i: usize = 0;
    while i < bits.len()
        invariant
            i <= bits@.len(),
            all_x == all_are(bits@.take(i as int), LogicBit::X),
            all_z == all_are(bits@.take(i as int), LogicBit::Z),
        decreases bits@.len() - i,
    {
        let b = bits[i];
        proof {
            let t = bits@.take(i + 1);
            let p = bits@.take(i as int);
            assert(t[i as int] == b);
            assert forall|j: int| 0 <= j < i implies #[trigger] t[j] == p[j] by {}
            if all_x && b == LogicBit::X {
                assert forall|j: int| 0 <= j < i + 1 implies #[trigger] t[j] == LogicBit::X by {
                    if j < i {
                        assert(t[j] == p[j]);
                    }
                }
            }
            if all_z && b == LogicBit::Z {
                assert forall|j: int| 0 <= j < i + 1 implies #[trigger] t[j] == LogicBit::Z by {
                    if j < i {
                        assert(t[j] == p[j]);
                    }
                }
            }
            if !all_x {
                let w = choose|j: int| 0 <= j < i && #[trigger] p[j] != LogicBit::X;
                assert(t[w] != LogicBit::X);
            }
            if !all_z {
                let w = choose|j: int| 0 <= j < i && #[trigger] p[j] != LogicBit::Z;
                assert(t[w] != LogicBit::Z);
            }
        }
        if b != LogicBit::X {
            all_x = false;
        }
        if b != LogicBit::Z {
            all_z = false;
        }
        i = i + 1;
    }
    assert(bits@.take(i as int) =~= bits@);
    if all_x {
        'x'
    } else if all_z {
        'z'
    } else {
        'X'
    }
}

/// The bytes `b` as characters, in order.
pub open spec fn byte_chars_of(b: Seq<u8>) -> Seq<char> {
    Seq::new(b.len(), |i: int| b[i] as char)
}

/// The bits of a string's bytes are all known, eight per byte.
pub proof fn lemma_string_bits_shape(b: Seq<u8>)
    ensures
        crate::literal::string_bits(b).len() == 8 * b.len(),
        !has_unknown(crate::literal::string_bits(b)),
    decreases b.len(),
{
    if b.len() > 0 {
        lemma_string_bits_shape(b.drop_last());
        vstd::arithmetic::power2::lemma2_to64();
        crate::literal::lemma_int_bits_value(b.last() as nat, 8);
        let lo = crate::literal::int_bits(b.last() as nat, 8);
        let hi = crate::literal::string_bits(b.drop_last());
        let all = lo + hi;
        assert forall|i: int| 0 <= i < all.len() implies is_known(#[trigger] all[i]) by {
            if i < 8 {
                assert(is_known(lo[i]));
            } else {
                assert(all[i] == hi[i - 8]);
                assert(is_known(hi[i - 8]));
            }
        }
    }
}

/// The text of a string's bits spells its bytes in order, first byte first,
/// where no byte is a quote or a backslash.
pub proof fn lemma_string_text_in_order(b: Seq<u8>)
    requires
        forall|i: int| 0 <= i < b.len() ==> #[trigger] b[i] != 34 && b[i] != 92,
    ensures
        string_text(crate::literal::string_bits(b)) == byte_chars_of(b),
    decreases b.len(),
{
    let bits = crate::literal::string_bits(b);
    if b.len() == 0 {
        assert(bits.len() == 0);
        assert(byte_chars_of(b) =~= Seq::<char>::empty());
    } else {
        let d = b.drop_last();
        assert forall|i: int| 0 <= i < d.len() implies #[trigger] d[i] != 34 && d[i] != 92 by {
            assert(d[i] == b[i]);
        }
        lemma_string_text_in_order(d);
        lemma_string_bits_shape(d);
        vstd::arithmetic::power2::lemma2_to64();
        crate::literal::lemma_int_bits_value(b.last() as nat, 8);
        let lo = crate::literal::int_bits(b.last() as nat, 8);
        let hi = crate::literal::string_bits(d);
        assert(bits == lo + hi);
        assert(bits.take(8) =~= lo);
        assert(bits.skip(8) =~= hi);
        assert(b[b.len() - 1] != 34 && b[b.len() - 1] != 92);
        assert(byte_text(b.last() as int) == seq![b.last() as char]);
        assert(byte_chars_of(b) =~= byte_chars_of(d) + seq![b.last() as char]);
    }
}

/// A digit below the radix of a binary, octal or hex base is shown as a
/// digit of that base standing for that number.
proof fn lemma_hex_digit_number(u: int, base: Base)
    requires
        base != Base::Decimal,
        0 <= u < crate::literal::radix(base),
    ensures
        crate::literal::digit_number(hex_digit(u), base) == Some(u as nat),
{
    if u == 0 {} else if u == 1 {} else if u == 2 {} else if u == 3 {} else if u == 4 {}
    else if u == 5 {} else if u == 6 {} else if u == 7 {} else if u == 8 {} else if u == 9 {}
    else if u == 10 {} else if u == 11 {} else if u == 12 {} else if u == 13 {}
    else if u == 14 {} else {}
}

/// The digits a known vector is shown with in binary, octal or hex are
/// digits of that base, and read as a numeral in that base they give back
/// the vector's unsigned number.
pub proof fn lemma_group_digits_value(bits: Seq<LogicBit>, base: Base)
    requires
        base != Base::Decimal,
        !has_unknown(bits),
    ensures
        forall|i: int|
            0 <= i < group_digits(bits, group_bits(base)).len() ==> #[trigger] crate::literal::digit_number(
                group_digits(bits, group_bits(base))[i],
                base,
            ) is Some,
        crate::literal::numeral_value(group_digits(bits, group_bits(base)), base) == unsigned_value(
            bits,
        ),
    decreases bits.len(),
{
    let g = group_bits(base);
    let ds = group_digits(bits, g);
    vstd::arithmetic::power2::lemma2_to64();
    assert(pow2(g) == crate::literal::radix(base));
    crate::value::lemma_unsigned_bound(bits);
    if bits.len() == 0 {
        assert(ds.len() == 0);
    } else if bits.len() <= g {
        if bits.len() < g {
            vstd::arithmetic::power2::lemma_pow2_strictly_increases(bits.len(), g);
        }
        lemma_hex_digit_number(unsigned_value(bits), base);
        assert(ds == seq![hex_digit(unsigned_value(bits))]);
        assert(ds.drop_last() =~= Seq::<char>::empty());
        assert(crate::literal::numeral_value(ds.drop_last(), base) == 0);
        assert(ds.last() == hex_digit(unsigned_value(bits)));
        assert(crate::literal::numeral_value(ds, base) == 0 * crate::literal::radix(base)
            + unsigned_value(bits));
    } else {
        let lo = bits.take(g as int);
        let hi = bits.skip(g as int);
        assert forall|i: int| 0 <= i < hi.len() implies crate::value::is_known(#[trigger] hi[i]) by {
            assert(hi[i] == bits[i + g]);
            assert(crate::value::is_known(bits[i + g]));
        }
        assert forall|i: int| 0 <= i < lo.len() implies crate::value::is_known(#[trigger] lo[i]) by {
            assert(lo[i] == bits[i]);
            assert(crate::value::is_known(bits[i]));
        }
        lemma_group_digits_value(hi, base);
        crate::value::lemma_unsigned_bound(lo);
        lemma_hex_digit_number(unsigned_value(lo), base);
        let rest = group_digits(hi, g);
        assert(ds == rest.push(group_char(lo)));
        assert(ds.drop_last() =~= rest);
        assert(bits =~= lo + hi);
        crate::literal::lemma_unsigned_join(lo, hi);
        assert(crate::literal::numeral_value(ds, base) == crate::literal::numeral_value(rest, base)
            * crate::literal::radix(base) + unsigned_value(lo));
        assert(pow2(lo.len()) * unsigned_value(hi) == unsigned_value(hi) * crate::literal::radix(base))
            by (nonlinear_arith)
            requires
                pow2(lo.len()) == crate::literal::radix(base),
        ;
        assert forall|i: int| 0 <= i < ds.len() implies #[trigger] crate::literal::digit_number(
            ds[i],
            base,
        ) is Some by {
            if i < rest.len() {
                assert(ds[i] == rest[i]);
            }
        }
    }
}

/// The digits a known value is shown with spell its number: in decimal the
/// magnitude of its number (signed or not, as the value is; a negative one
/// is shown with a leading `-`), in binary, octal or hex its unsigned bits.
pub proof fn lemma_value_digits_spell(v: SVal)
    requires
        !has_unknown(v.bits),
    ensures
        v.base == Base::Decimal ==> crate::bignum::all_decimal_digits(value_digits(v))
            && crate::bignum::decimal_value(value_digits(v)) == abs(int_value(v.bits, v.signed)),
        v.base != Base::Decimal ==> crate::literal::numeral_value(value_digits(v), v.base)
            == unsigned_value(v.bits),
{
    if v.base == Base::Decimal {
        crate::bignum::lemma_decimal_round_trip(abs(int_value(v.bits, v.signed)));
    } else {
        lemma_group_digits_value(v.bits, v.base);
    }
}

} // verus!

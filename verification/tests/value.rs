use vcal::ast::{Base, BinaryOp, LogicBit, UnaryOp};
use vcal::literal::{parse_integer, string_literal_spec};
use num_bigint::BigInt;
use vcal::value::{base_cast_meta, clog2_bits, concatenation_meta, replication_meta, sign_cast_meta};
use vcal::value::{
    arithmetic_bits, bits_of_bigint, bitwise_and_bits, bitwise_not_bit, bitwise_or_bits,
    bitwise_vector, bitwise_xnor_bits, bitwise_xor_bits, combine_binary_meta,
    concatenated_display_style, conditional_meta, effective_meta, equality_bit, evaluate_power,
    logical_binary_bit, logical_not_bit, logical_value, merge_conditional, negate_bits,
    not_vector, power_bits, reduce_bits, relational_bit, replication_count, shift_result_bits,
    DisplayStyle, ExprMeta, IntegerValue,
};

use LogicBit::{One, Zero, X, Z};

/// Bits written most significant first, as in Verilog source.
fn bits(text: &str) -> Vec<LogicBit> {
    text.chars()
        .rev()
        .map(|c| match c {
            '0' => Zero,
            '1' => One,
            'x' => X,
            _ => Z,
        })
        .collect()
}

fn value(text: &str) -> IntegerValue {
    let b = bits(text);
    IntegerValue {
        width: b.len(),
        signed: false,
        base: Base::Binary,
        base_locked: false,
        display_style: DisplayStyle::Base,
        bits: b,
        unsized_literal: false,
    }
}

#[test]
fn four_state_truth_tables() {
    assert_eq!(bitwise_and_bits(Zero, X), Zero);
    assert_eq!(bitwise_and_bits(Z, Zero), Zero);
    assert_eq!(bitwise_and_bits(One, Z), X);
    assert_eq!(bitwise_and_bits(One, One), One);
    assert_eq!(bitwise_or_bits(X, One), One);
    assert_eq!(bitwise_or_bits(Zero, Z), X);
    assert_eq!(bitwise_or_bits(Zero, Zero), Zero);
    assert_eq!(bitwise_xor_bits(One, Zero), One);
    assert_eq!(bitwise_xor_bits(One, One), Zero);
    assert_eq!(bitwise_xor_bits(Z, Zero), X);
    assert_eq!(bitwise_xnor_bits(One, One), One);
    assert_eq!(bitwise_xnor_bits(X, One), X);
    assert_eq!(bitwise_not_bit(Zero), One);
    assert_eq!(bitwise_not_bit(Z), X);
}

#[test]
fn reductions_fold_the_tables() {
    assert_eq!(reduce_bits(UnaryOp::ReductionAnd, &bits("1111")), One);
    assert_eq!(reduce_bits(UnaryOp::ReductionAnd, &bits("1x01")), Zero);
    assert_eq!(reduce_bits(UnaryOp::ReductionAnd, &bits("1x11")), X);
    assert_eq!(reduce_bits(UnaryOp::ReductionNand, &bits("1x01")), One);
    assert_eq!(reduce_bits(UnaryOp::ReductionOr, &bits("0z10")), One);
    assert_eq!(reduce_bits(UnaryOp::ReductionOr, &bits("0000")), Zero);
    assert_eq!(reduce_bits(UnaryOp::ReductionNor, &bits("0000")), One);
    assert_eq!(reduce_bits(UnaryOp::ReductionXor, &bits("1011")), One);
    assert_eq!(reduce_bits(UnaryOp::ReductionXnor, &bits("1011")), Zero);
    assert_eq!(reduce_bits(UnaryOp::ReductionXor, &bits("10z1")), X);
    // The identities: an empty vector reduces to 1 under AND, 0 under OR and XOR.
    assert_eq!(reduce_bits(UnaryOp::ReductionAnd, &[]), One);
    assert_eq!(reduce_bits(UnaryOp::ReductionOr, &[]), Zero);
    assert_eq!(reduce_bits(UnaryOp::ReductionXor, &[]), Zero);
}

#[test]
fn logical_value_of_operands() {
    assert_eq!(logical_value(&value("0010")), One);
    assert_eq!(logical_value(&value("x010")), One);
    assert_eq!(logical_value(&value("0000")), Zero);
    assert_eq!(logical_value(&value("0z00")), X);
}

#[test]
fn equality_operators() {
    let eq = |op, a: &str, b: &str| equality_bit(op, &value(a), &value(b));
    assert_eq!(eq(BinaryOp::Equal, "1010", "1010"), One);
    assert_eq!(eq(BinaryOp::Equal, "1010", "1011"), Zero);
    assert_eq!(eq(BinaryOp::Equal, "1x10", "1010"), X);
    // A definite mismatch outranks the unknown bit.
    assert_eq!(eq(BinaryOp::Equal, "1x10", "0010"), Zero);
    assert_eq!(eq(BinaryOp::NotEqual, "1x10", "0010"), One);
    assert_eq!(eq(BinaryOp::NotEqual, "1x10", "1010"), X);
    assert_eq!(eq(BinaryOp::CaseEqual, "1x10", "1x10"), One);
    assert_eq!(eq(BinaryOp::CaseEqual, "1x10", "1z10"), Zero);
    assert_eq!(eq(BinaryOp::CaseNotEqual, "1x10", "1z10"), One);
    assert_eq!(eq(BinaryOp::CaseEqual, "010", "0010"), Zero);
}

#[test]
fn relational_operators() {
    let rel = |op, a: &str, b: &str, signed| relational_bit(op, &value(a), &value(b), signed);
    assert_eq!(rel(BinaryOp::LessThan, "0011", "0101", false), One);
    assert_eq!(rel(BinaryOp::GreaterThan, "0011", "0101", false), Zero);
    // 4'b1111 is 15 unsigned and -1 signed.
    assert_eq!(rel(BinaryOp::GreaterThan, "1111", "0001", false), One);
    assert_eq!(rel(BinaryOp::LessThan, "1111", "0001", true), One);
    assert_eq!(rel(BinaryOp::LessThan, "1110", "1111", true), One);
    assert_eq!(rel(BinaryOp::LessThanOrEqual, "0101", "0101", true), One);
    assert_eq!(rel(BinaryOp::GreaterThanOrEqual, "0100", "0101", true), Zero);
    // Different widths: the shorter side is extended (with its sign when signed).
    assert_eq!(rel(BinaryOp::LessThan, "11", "0001", false), Zero);
    assert_eq!(rel(BinaryOp::LessThan, "11", "0001", true), One);
    assert_eq!(rel(BinaryOp::LessThan, "1x", "0001", false), X);
    assert_eq!(rel(BinaryOp::GreaterThanOrEqual, "0001", "z", false), X);
}

#[test]
fn binary_operator_shapes() {
    let m = |width, signed, base| ExprMeta { width, signed, base };
    assert_eq!(
        combine_binary_meta(BinaryOp::Add, m(4, true, Base::Hex), m(8, true, Base::Decimal)),
        m(8, true, Base::Hex)
    );
    assert_eq!(
        combine_binary_meta(BinaryOp::BitwiseXor, m(8, true, Base::Binary), m(4, false, Base::Hex)),
        m(8, false, Base::Binary)
    );
    assert_eq!(
        combine_binary_meta(BinaryOp::LogicalShiftLeft, m(4, true, Base::Octal), m(32, false, Base::Decimal)),
        m(4, true, Base::Octal)
    );
    assert_eq!(
        combine_binary_meta(BinaryOp::Power, m(3, false, Base::Hex), m(16, true, Base::Decimal)),
        m(3, false, Base::Hex)
    );
    assert_eq!(
        combine_binary_meta(BinaryOp::CaseEqual, m(16, true, Base::Hex), m(16, true, Base::Hex)),
        m(1, false, Base::Binary)
    );
}

#[test]
fn literals_materialize_to_their_bits() {
    let v = parse_integer(&"4'b10x1".to_string()).unwrap().materialize();
    assert_eq!(v.width, 4);
    assert_eq!(v.bits, bits("10x1"));
    assert!(v.base_locked);
    assert!(!v.unsized_literal);
    let v = parse_integer(&"8'shz".to_string()).unwrap().materialize();
    assert_eq!(v.bits, bits("zzzzzzzz"));
    assert!(v.signed);
    let v = parse_integer(&"6'd37".to_string()).unwrap().materialize();
    assert_eq!(v.bits, bits("100101"));
    assert_eq!(v.base, Base::Decimal);
    // Cut to the declared width.
    let v = parse_integer(&"3'd13".to_string()).unwrap().materialize();
    assert_eq!(v.bits, bits("101"));
    let v = parse_integer(&"5".to_string()).unwrap().materialize();
    assert_eq!(v.width, 32);
    assert!(v.unsized_literal);
    assert!(v.signed);
    assert_eq!(v.bits[0..4].to_vec(), bits("0101"));
    assert!(v.bits[4..].iter().all(|b| *b == Zero));
    let v = parse_integer(&"100000000000000000000".to_string()).unwrap().materialize();
    // 10^20 = 0x56BC75E2D63100000, 67 bits; the low 32 are 0x63100000.
    assert_eq!(v.width, 68);
    assert_eq!(v.bits[0..32].to_vec(), bits("01100011000100000000000000000000"));
}

#[test]
fn concatenation_display_style() {
    let text = |width| IntegerValue {
        width,
        signed: false,
        base: Base::Hex,
        base_locked: false,
        display_style: DisplayStyle::String,
        bits: vec![Zero; width],
        unsized_literal: false,
    };
    let s = string_literal_spec(b"hi").materialize();
    assert_eq!(s.display_style, DisplayStyle::Base);
    assert_eq!(concatenated_display_style(&[text(16), text(8)]), DisplayStyle::String);
    assert_eq!(concatenated_display_style(&[text(16), text(0)]), DisplayStyle::String);
    assert_eq!(concatenated_display_style(&[text(16), text(4)]), DisplayStyle::Base);
    assert_eq!(concatenated_display_style(&[text(16), value("1010")]), DisplayStyle::Base);
    assert_eq!(concatenated_display_style(&[text(0)]), DisplayStyle::Base);
    assert_eq!(concatenated_display_style(&[]), DisplayStyle::Base);
}

fn signed_value(text: &str) -> IntegerValue {
    let mut v = value(text);
    v.signed = true;
    v
}

#[test]
fn vector_combiners() {
    assert_eq!(bitwise_vector(BinaryOp::BitwiseAnd, &bits("1x01"), &bits("1101")), bits("1x01"));
    assert_eq!(bitwise_vector(BinaryOp::BitwiseAnd, &bits("0z01"), &bits("1100")), bits("0x00"));
    assert_eq!(bitwise_vector(BinaryOp::BitwiseOr, &bits("0z01"), &bits("1100")), bits("1101"));
    assert_eq!(bitwise_vector(BinaryOp::BitwiseOr, &bits("0z01"), &bits("0000")), bits("0x01"));
    assert_eq!(bitwise_vector(BinaryOp::BitwiseXor, &bits("0z01"), &bits("1101")), bits("1x00"));
    assert_eq!(bitwise_vector(BinaryOp::BitwiseXnor, &bits("0101"), &bits("1100")), bits("0110"));
    assert_eq!(not_vector(&bits("01xz")), bits("10xx"));
    assert_eq!(merge_conditional(&bits("1100"), &bits("1010")), bits("1xx0"));
    assert_eq!(merge_conditional(&bits("1z0x"), &bits("1z0x")), bits("1z0x"));
}

#[test]
fn logical_operators() {
    assert_eq!(logical_not_bit(&value("0000")), One);
    assert_eq!(logical_not_bit(&value("0100")), Zero);
    assert_eq!(logical_not_bit(&value("0x00")), X);
    assert_eq!(logical_binary_bit(BinaryOp::LogicalAnd, &value("0x00"), &value("0000")), Zero);
    assert_eq!(logical_binary_bit(BinaryOp::LogicalAnd, &value("0x00"), &value("0010")), X);
    assert_eq!(logical_binary_bit(BinaryOp::LogicalAnd, &value("0100"), &value("1")), One);
    assert_eq!(logical_binary_bit(BinaryOp::LogicalOr, &value("0x00"), &value("0010")), One);
    assert_eq!(logical_binary_bit(BinaryOp::LogicalOr, &value("0z00"), &value("0")), X);
    assert_eq!(logical_binary_bit(BinaryOp::LogicalOr, &value("00"), &value("0")), Zero);
}

#[test]
fn shapes_in_context() {
    let m = |width, signed, base| ExprMeta { width, signed, base };
    assert_eq!(effective_meta(m(4, true, Base::Hex), None), m(4, true, Base::Hex));
    assert_eq!(
        effective_meta(m(4, true, Base::Hex), Some(m(8, false, Base::Decimal))),
        m(8, false, Base::Hex)
    );
    assert_eq!(
        effective_meta(m(16, false, Base::Octal), Some(m(8, true, Base::Decimal))),
        m(16, true, Base::Octal)
    );
    assert_eq!(
        conditional_meta(m(4, true, Base::Hex), m(8, true, Base::Binary)),
        m(8, true, Base::Hex)
    );
    assert_eq!(
        conditional_meta(m(4, true, Base::Hex), m(2, false, Base::Binary)),
        m(4, false, Base::Hex)
    );
}

#[test]
fn arithmetic_wraps_at_the_width() {
    let ar = |op, a: &str, b: &str, signed, w| arithmetic_bits(op, &value(a), &value(b), signed, w);
    // 4'hF + 4'hF = 30, shown at 8 bits as 8'b00011110.
    assert_eq!(ar(BinaryOp::Add, "1111", "1111", false, 8), bits("00011110"));
    assert_eq!(ar(BinaryOp::Add, "1111", "1111", false, 4), bits("1110"));
    assert_eq!(ar(BinaryOp::Subtract, "0011", "0101", false, 4), bits("1110"));
    assert_eq!(ar(BinaryOp::Multiply, "0110", "0111", false, 8), bits("00101010"));
    assert_eq!(ar(BinaryOp::Divide, "1101", "0100", false, 4), bits("0011"));
    // Signed: -3 / 2 rounds toward zero to -1; -3 % 2 keeps the dividend's sign.
    assert_eq!(ar(BinaryOp::Divide, "1101", "0010", true, 4), bits("1111"));
    assert_eq!(ar(BinaryOp::Modulus, "1101", "0010", true, 4), bits("1111"));
    assert_eq!(ar(BinaryOp::Modulus, "1101", "0010", false, 4), bits("0001"));
    assert_eq!(ar(BinaryOp::Divide, "1101", "0000", false, 4), bits("xxxx"));
    assert_eq!(ar(BinaryOp::Modulus, "1101", "0000", true, 4), bits("xxxx"));
    assert_eq!(ar(BinaryOp::Add, "1x01", "0001", false, 4), bits("xxxx"));
}

#[test]
fn values_as_integers() {
    assert_eq!(value("1110").as_bigint(false), BigInt::from(14));
    assert_eq!(value("1110").as_bigint(true), BigInt::from(-2));
    assert_eq!(value("0110").as_bigint(true), BigInt::from(6));
    assert_eq!(value("").as_bigint(true), BigInt::from(0));
    assert!(value("0000").is_zero());
    assert!(!value("0100").is_zero());
    assert_eq!(bits_of_bigint(&BigInt::from(-2), 6), bits("111110"));
    assert_eq!(bits_of_bigint(&BigInt::from(37), 4), bits("0101"));
    assert_eq!(negate_bits(&value("0011"), false, 4), bits("1101"));
    assert_eq!(negate_bits(&signed_value("1101"), true, 8), bits("00000011"));
    assert_eq!(negate_bits(&value("0z11"), false, 4), bits("xxxx"));
}

#[test]
fn power_operator() {
    let p = |b: i64, e: i64, w| evaluate_power(BigInt::from(b), BigInt::from(e), w);
    assert_eq!(p(3, 4, 8), Ok(BigInt::from(81)));
    assert_eq!(p(3, 4, 4), Ok(BigInt::from(1)));
    assert_eq!(p(-3, 3, 8), Ok(BigInt::from(229)));
    assert_eq!(p(7, 0, 4), Ok(BigInt::from(1)));
    assert_eq!(p(0, 0, 4), Ok(BigInt::from(1)));
    assert_eq!(p(0, -1, 4), Err("power result is undefined".to_string()));
    assert_eq!(p(1, -5, 4), Ok(BigInt::from(1)));
    assert_eq!(p(-1, -5, 4), Ok(BigInt::from(-1)));
    assert_eq!(p(-1, -4, 4), Ok(BigInt::from(1)));
    assert_eq!(p(2, -1, 4), Ok(BigInt::from(0)));
    assert_eq!(power_bits(&value("0011"), false, &value("010"), 8), bits("00001001"));
    assert_eq!(power_bits(&value("0010"), false, &signed_value("1111"), 4), bits("0000"));
    assert_eq!(power_bits(&value("0000"), false, &signed_value("1111"), 4), bits("xxxx"));
    assert_eq!(power_bits(&value("00x0"), false, &value("01"), 4), bits("xxxx"));
}

#[test]
fn shift_operators() {
    let sh = |op, a: &str, b: &str, signed| {
        shift_result_bits(op, &value(a), &value(b), signed, a.len())
    };
    assert_eq!(sh(BinaryOp::LogicalShiftLeft, "0011", "01", false), bits("0110"));
    assert_eq!(sh(BinaryOp::ArithmeticShiftLeft, "0011", "10", true), bits("1100"));
    assert_eq!(sh(BinaryOp::LogicalShiftRight, "1100", "10", true), bits("0011"));
    assert_eq!(sh(BinaryOp::ArithmeticShiftRight, "1100", "10", true), bits("1111"));
    assert_eq!(sh(BinaryOp::ArithmeticShiftRight, "1100", "10", false), bits("0011"));
    // An amount at or past the width empties the vector.
    assert_eq!(sh(BinaryOp::LogicalShiftLeft, "1011", "1111111", false), bits("0000"));
    assert_eq!(sh(BinaryOp::ArithmeticShiftRight, "1011", "100", true), bits("1111"));
    assert_eq!(sh(BinaryOp::LogicalShiftRight, "1011", "x", false), bits("xxxx"));
}

#[test]
fn reading_a_value_back() {
    for text in ["", "0", "1", "1110", "0110", "10000001", "11111111"] {
        for signed in [false, true] {
            let v = value(text);
            assert_eq!(bits_of_bigint(&v.as_bigint(signed), v.bits.len()), v.bits);
        }
    }
}

#[test]
fn reductions_and_logical_value_laws() {
    // One `0` decides an AND-reduction, one `1` an OR-reduction.
    assert_eq!(reduce_bits(UnaryOp::ReductionAnd, &bits("x0zx")), Zero);
    assert_eq!(reduce_bits(UnaryOp::ReductionNor, &bits("zx1x")), Zero);
    // The logical value is the OR-reduction.
    for text in ["0000", "0z00", "x010", "1"] {
        assert_eq!(logical_value(&value(text)), reduce_bits(UnaryOp::ReductionOr, &bits(text)));
    }
    // On known bits `==` agrees with `===`.
    assert_eq!(
        equality_bit(BinaryOp::Equal, &value("0110"), &value("0110")),
        equality_bit(BinaryOp::CaseEqual, &value("0110"), &value("0110"))
    );
}

#[test]
fn replication_counts() {
    assert_eq!(replication_count(&value("011"), false), Ok(3));
    assert_eq!(replication_count(&signed_value("011"), true), Ok(3));
    assert_eq!(replication_count(&value("000"), true), Ok(0));
    assert_eq!(
        replication_count(&value("000"), false),
        Err("replication count must be positive in this context".to_string())
    );
    assert_eq!(
        replication_count(&signed_value("110"), true),
        Err("replication count must be non-negative".to_string())
    );
    // The same bits read as unsigned are six.
    assert_eq!(replication_count(&value("110"), true), Ok(6));
    assert_eq!(
        replication_count(&value("1x0"), true),
        Err("replication count contains unknown bits".to_string())
    );
    let mut huge = vec![Zero; 80];
    huge[79] = One;
    let big = IntegerValue {
        width: 80,
        signed: false,
        base: Base::Decimal,
        base_locked: false,
        display_style: DisplayStyle::Base,
        bits: huge,
        unsized_literal: false,
    };
    assert_eq!(replication_count(&big, true), Err("replication count too large".to_string()));
}

#[test]
fn concatenation_and_cast_shapes() {
    let m = |width, signed, base| ExprMeta { width, signed, base };
    assert_eq!(
        concatenation_meta(&[m(4, true, Base::Hex), m(8, false, Base::Binary)]),
        m(12, false, Base::Hex)
    );
    assert_eq!(concatenation_meta(&[]), m(0, false, Base::Binary));
    assert_eq!(
        concatenation_meta(&[m(usize::MAX, false, Base::Octal), m(8, false, Base::Binary)]),
        m(usize::MAX, false, Base::Octal)
    );
    assert_eq!(
        replication_meta(&[m(4, true, Base::Decimal), m(2, true, Base::Hex)], 3),
        m(18, false, Base::Decimal)
    );
    assert_eq!(
        replication_meta(&[m(usize::MAX / 2 + 1, false, Base::Hex)], 2),
        m(usize::MAX, false, Base::Hex)
    );
    assert_eq!(replication_meta(&[m(5, false, Base::Hex)], 0), m(0, false, Base::Hex));
    assert_eq!(sign_cast_meta(m(4, false, Base::Hex), true), m(4, true, Base::Hex));
    assert_eq!(base_cast_meta(m(4, true, Base::Hex), Base::Octal), m(4, true, Base::Octal));
}

#[test]
fn clog2_counts_address_bits() {
    let c = |text: &str| clog2_bits(&value(text));
    let thirty_two = |n: u32| (0..32).map(|i| if (n >> i) & 1 == 1 { One } else { Zero }).collect::<Vec<_>>();
    assert_eq!(c("0"), thirty_two(0));
    assert_eq!(c("1"), thirty_two(0));
    assert_eq!(c("10"), thirty_two(1));
    assert_eq!(c("11"), thirty_two(2));
    assert_eq!(c("100"), thirty_two(2));
    assert_eq!(c("101"), thirty_two(3));
    assert_eq!(c("10000000"), thirty_two(7));
    assert_eq!(c("10000001"), thirty_two(8));
    // The argument is read as unsigned.
    assert_eq!(clog2_bits(&signed_value("1111")), thirty_two(4));
    assert_eq!(c("1x"), vec![X; 32]);
}

use num_bigint::BigInt;
use vcal::ast::{Base, LogicBit};
use vcal::select::{
    bit_select, check_part_select_direction, indexed_select_bounds, materialize_part_select,
    per_position_indices, resolve_reg_index, write_positions, RegRange,
};
use vcal::value::{DisplayStyle, IntegerValue};

use LogicBit::{One, Zero, X, Z};

fn bits(text: &str) -> Vec<LogicBit> {
    text.chars()
        .rev()
        .map(|c| match c {
            '0' => Zero,
            '1' => One,
            'x' => X,
            _ => Z,
        })
        .collect()
}

fn value(text: &str, signed: bool) -> IntegerValue {
    let b = bits(text);
    IntegerValue {
        width: b.len(),
        signed,
        base: Base::Binary,
        base_locked: false,
        display_style: DisplayStyle::Base,
        bits: b,
        unsized_literal: false,
    }
}

fn range(msb: i64, lsb: i64) -> RegRange {
    RegRange { msb: BigInt::from(msb), lsb: BigInt::from(lsb) }
}

#[test]
fn source_indices_find_stored_bits() {
    let r = range(7, 0);
    assert_eq!(resolve_reg_index(&r, &BigInt::from(0)), Some(0));
    assert_eq!(resolve_reg_index(&r, &BigInt::from(7)), Some(7));
    assert_eq!(resolve_reg_index(&r, &BigInt::from(8)), None);
    assert_eq!(resolve_reg_index(&r, &BigInt::from(-1)), None);
    // A reversed declaration counts from its lsb end too.
    let r = range(0, 7);
    assert_eq!(resolve_reg_index(&r, &BigInt::from(0)), Some(7));
    assert_eq!(resolve_reg_index(&r, &BigInt::from(7)), Some(0));
    // Negative endpoints.
    let r = range(-1, 2);
    assert_eq!(resolve_reg_index(&r, &BigInt::from(-1)), Some(3));
    assert_eq!(resolve_reg_index(&r, &BigInt::from(2)), Some(0));
    assert_eq!(resolve_reg_index(&r, &BigInt::from(3)), None);
}

#[test]
fn bit_selects() {
    let a = value("0101", false);
    let r = range(3, 0);
    assert_eq!(bit_select(&a, &r, &value("00", false)), One);
    assert_eq!(bit_select(&a, &r, &value("01", false)), Zero);
    assert_eq!(bit_select(&a, &r, &value("0100", false)), X);
    assert_eq!(bit_select(&a, &r, &value("0x", false)), X);
    // A signed index of -1 is out of range; read unsigned the same bits are 3.
    assert_eq!(bit_select(&a, &r, &value("11", true)), X);
    assert_eq!(bit_select(&a, &r, &value("11", false)), Zero);
}

#[test]
fn part_selects_read_x_out_of_range() {
    // reg [3:0] a = 4'b0101; a[4:3] gives 2'bx0.
    let a = value("0101", false);
    let r = range(3, 0);
    assert_eq!(
        materialize_part_select(&a, &r, &BigInt::from(4), &BigInt::from(3), 2),
        bits("x0")
    );
    assert_eq!(
        materialize_part_select(&a, &r, &BigInt::from(2), &BigInt::from(0), 3),
        bits("101")
    );
    // On a reversed declaration the select runs the other way.
    let b = value("0011", false);
    let r = range(0, 3);
    assert_eq!(
        materialize_part_select(&b, &r, &BigInt::from(0), &BigInt::from(1), 2),
        bits("00")
    );
    assert_eq!(
        materialize_part_select(&b, &r, &BigInt::from(2), &BigInt::from(3), 2),
        bits("11")
    );
}

#[test]
fn indexed_part_select_bounds() {
    let fwd = range(7, 0);
    let (m, l) = indexed_select_bounds(&fwd, &BigInt::from(2), 4, true);
    assert_eq!((m, l), (BigInt::from(5), BigInt::from(2)));
    let (m, l) = indexed_select_bounds(&fwd, &BigInt::from(5), 4, false);
    assert_eq!((m, l), (BigInt::from(5), BigInt::from(2)));
    let rev = range(0, 7);
    let (m, l) = indexed_select_bounds(&rev, &BigInt::from(2), 4, true);
    assert_eq!((m, l), (BigInt::from(2), BigInt::from(5)));
}

#[test]
fn part_select_direction_follows_the_declaration() {
    let b = |n: i64| BigInt::from(n);
    assert_eq!(check_part_select_direction(&range(7, 0), &b(3), &b(1)), Ok(()));
    assert_eq!(check_part_select_direction(&range(7, 0), &b(2), &b(2)), Ok(()));
    assert_eq!(check_part_select_direction(&range(0, 7), &b(1), &b(3)), Ok(()));
    assert_eq!(
        check_part_select_direction(&range(7, 0), &b(1), &b(3)),
        Err("part-select direction does not match reg declaration: reg is [7:0], select is [1:3]".to_string())
    );
    assert_eq!(
        check_part_select_direction(&range(-2, 5), &b(4), &b(-1)),
        Err("part-select direction does not match reg declaration: reg is [-2:5], select is [4:-1]".to_string())
    );
}

#[test]
fn assignments_land_on_their_positions() {
    let r = range(3, 0);
    let b = |n: i64| BigInt::from(n);
    assert_eq!(per_position_indices(&r, &b(4), &b(3), 2), vec![Some(3), None]);
    assert_eq!(per_position_indices(&r, &b(2), &b(1), 2), vec![Some(1), Some(2)]);
    let rev = range(0, 3);
    assert_eq!(per_position_indices(&rev, &b(0), &b(1), 2), vec![Some(2), Some(3)]);

    // reg [3:0] a = 4'b0101; a[2:1] = 2'b01 gives 4'b0011.
    let mut v = value("0101", false);
    let positions = per_position_indices(&r, &b(2), &b(1), 2);
    let rhs = bits("01");
    assert_eq!(write_positions(&mut v.bits, &positions, &rhs, 0), 2);
    assert_eq!(v.bits, bits("0011"));
    // Reading the same part-select back gives the assigned bits.
    assert_eq!(materialize_part_select(&v, &r, &b(2), &b(1), 2), rhs);

    // a[4:3] = 2'b11 writes only the in-range bit; reading back gives 2'bx1.
    let mut v = value("0101", false);
    let positions = per_position_indices(&r, &b(4), &b(3), 2);
    assert_eq!(write_positions(&mut v.bits, &positions, &bits("11"), 0), 2);
    assert_eq!(v.bits, bits("1101"));
    assert_eq!(materialize_part_select(&v, &r, &b(4), &b(3), 2), bits("x1"));

    // The cursor picks this target's bits out of a longer right-hand side.
    let mut a = bits("0000");
    assert_eq!(write_positions(&mut a, &[Some(0), None, Some(3)], &bits("111010"), 2), 5);
    assert_eq!(a, bits("1000"));
}

use vcal::ast::{binary_op_name, shift_bits_left, shift_bits_right, unary_op_name, BinaryOp, DeclKind, LogicBit, UnaryOp};
use vcal::color::{dim, green, highlight_line, magenta, red, yellow};
use vcal::text::trim;

#[test]
fn trim_drops_surrounding_whitespace_only() {
    assert_eq!(trim("  a b \n"), "a b");
    assert_eq!(trim(" \t "), "");
    assert_eq!(trim("\u{3000}x\u{a0}"), "x");
}

#[test]
fn colours_wrap_in_sgr_sequences() {
    assert_eq!(green("In [0]: "), "\x1b[32mIn [0]: \x1b[0m");
    assert_eq!(red("x"), "\x1b[31mx\x1b[0m");
    assert_eq!(yellow("1"), "\x1b[33m1\x1b[0m");
    assert_eq!(magenta("$x"), "\x1b[35m$x\x1b[0m");
    assert_eq!(dim("//"), "\x1b[2m//\x1b[0m");
}

#[test]
fn line_colouring_follows_token_classes() {
    assert_eq!(highlight_line("a + 1"), "a + \x1b[33m1\x1b[0m");
    assert_eq!(
        highlight_line("$x // c"),
        "\x1b[35m$x\x1b[0m \x1b[2m// c\x1b[0m"
    );
    assert_eq!(highlight_line("  @ "), "  \x1b[31m@\x1b[0m ");
    assert_eq!(highlight_line(""), "");
}

#[test]
fn operator_spellings() {
    assert_eq!(unary_op_name(UnaryOp::ReductionNand), "~&");
    assert_eq!(unary_op_name(UnaryOp::Minus), "-");
    assert_eq!(binary_op_name(BinaryOp::ArithmeticShiftRight), ">>>");
    assert_eq!(binary_op_name(BinaryOp::CaseNotEqual), "!==");
    assert_eq!(DeclKind::Integer.keyword(), "integer");
    assert_eq!(DeclKind::Reg.keyword(), "reg");
}

#[test]
fn shifts_keep_the_width() {
    assert_eq!(shift_bits_left(&[LogicBit::One, LogicBit::Zero, LogicBit::X], 1), vec![LogicBit::Zero, LogicBit::One, LogicBit::Zero]);
    assert_eq!(shift_bits_left(&[LogicBit::One, LogicBit::Zero, LogicBit::X], 5), vec![LogicBit::Zero; 3]);
    assert_eq!(shift_bits_right(&[LogicBit::One, LogicBit::Zero, LogicBit::X], 1, LogicBit::Z), vec![LogicBit::Zero, LogicBit::X, LogicBit::Z]);
    assert_eq!(shift_bits_right(&[LogicBit::One, LogicBit::Zero, LogicBit::X], usize::MAX, LogicBit::X), vec![LogicBit::X; 3]);
    assert_eq!(shift_bits_right(&[LogicBit::One, LogicBit::Zero, LogicBit::X], 0, LogicBit::Z), vec![LogicBit::One, LogicBit::Zero, LogicBit::X]);
}

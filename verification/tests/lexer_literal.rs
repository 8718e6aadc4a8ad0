use num_bigint::BigUint;
use vcal::ast::{Base, LiteralPayload, LiteralSpec, LogicBit};
use vcal::lexer::{tokenize, Token};
use vcal::literal::{parse_integer, parse_real, string_literal_spec};

const ONE: LogicBit = LogicBit::One;
const ZERO: LogicBit = LogicBit::Zero;

fn lit(text: &str) -> Result<LiteralSpec, String> {
    parse_integer(&text.to_string())
}

#[test]
fn operators_are_lexed_greedily() {
    assert_eq!(
        tokenize("a<<<=b").unwrap(),
        vec![
            Token::Identifier("a".to_string()),
            Token::ArithmeticShiftLeft,
            Token::Assign,
            Token::Identifier("b".to_string()),
        ]
    );
    assert_eq!(
        tokenize("x ^~ y !== z ~& w").unwrap(),
        vec![
            Token::Identifier("x".to_string()),
            Token::BitwiseXnor,
            Token::Identifier("y".to_string()),
            Token::CaseNotEqual,
            Token::Identifier("z".to_string()),
            Token::BitwiseNand,
            Token::Identifier("w".to_string()),
        ]
    );
    assert_eq!(tokenize("**").unwrap(), vec![Token::Power]);
}

#[test]
fn numbers_keep_their_text() {
    assert_eq!(
        tokenize("8 'd 6").unwrap(),
        vec![Token::IntegerLiteral("8'd6".to_string())]
    );
    assert_eq!(
        tokenize("4'b1?").unwrap(),
        vec![Token::IntegerLiteral("4'b1?".to_string())]
    );
    assert_eq!(
        tokenize("1.5e-3").unwrap(),
        vec![Token::RealLiteral("1.5e-3".to_string())]
    );
    assert_eq!(
        tokenize("5 .5").unwrap_err(),
        "unexpected character `.`".to_string()
    );
    assert_eq!(
        tokenize("$x_1$ +").unwrap(),
        vec![Token::SystemIdentifier("$x_1$".to_string()), Token::Plus]
    );
}

#[test]
fn lexical_errors() {
    assert_eq!(
        tokenize("1e"),
        Err("missing exponent digits in real literal".to_string())
    );
    assert_eq!(
        tokenize("1.0e_3"),
        Err("missing exponent digits in real literal".to_string())
    );
    assert_eq!(tokenize("$ x"), Err("missing identifier after `$`".to_string()));
    assert_eq!(tokenize("'"), Err("missing base after apostrophe".to_string()));
    assert_eq!(tokenize("4' h1"), Err("missing base after apostrophe".to_string()));
    assert_eq!(tokenize("'s"), Err("missing base after signed marker".to_string()));
    assert_eq!(tokenize("4'b"), Err("missing digits in integer literal".to_string()));
}

#[test]
fn integer_literal_stops_before_a_dot() {
    assert_eq!(tokenize("5."), Err("unexpected character `.`".to_string()));
    assert_eq!(tokenize("1.x"), Err("unexpected character `.`".to_string()));
    assert_eq!(tokenize(".5"), Err("unexpected character `.`".to_string()));
    assert_eq!(tokenize("a.b"), Err("unexpected character `.`".to_string()));
    assert_eq!(
        tokenize("1.5").unwrap(),
        vec![Token::RealLiteral("1.5".to_string())]
    );
}

#[test]
fn sized_hex_literal() {
    let l = lit("8'hF0").unwrap();
    assert_eq!(l.width, 8);
    assert!(!l.signed);
    assert_eq!(l.base, Base::Hex);
    assert!(!l.unsized_literal);
    assert_eq!(
        l.payload,
        LiteralPayload::Bits {
            low_bits: vec![
                LogicBit::Zero,
                LogicBit::Zero,
                LogicBit::Zero,
                LogicBit::Zero,
                LogicBit::One,
                LogicBit::One,
                LogicBit::One,
                LogicBit::One,
            ],
            fill: LogicBit::Zero,
        }
    );
}

#[test]
fn unknown_digits_extend_with_their_own_value() {
    let l = lit("4'bx").unwrap();
    assert_eq!(l.width, 4);
    assert_eq!(
        l.payload,
        LiteralPayload::Bits { low_bits: vec![LogicBit::X], fill: LogicBit::X }
    );
    let l = lit("'dz").unwrap();
    assert_eq!(l.width, 32);
    assert!(l.unsized_literal);
    assert_eq!(
        l.payload,
        LiteralPayload::Bits { low_bits: vec![], fill: LogicBit::Z }
    );
    let l = lit("'h?").unwrap();
    assert_eq!(l.width, 32);
    assert_eq!(
        l.payload,
        LiteralPayload::Bits {
            low_bits: vec![LogicBit::Z, LogicBit::Z, LogicBit::Z, LogicBit::Z],
            fill: LogicBit::Z,
        }
    );
}

#[test]
fn decimal_widths() {
    let l = lit("'d5").unwrap();
    assert_eq!((l.width, l.signed, l.unsized_literal), (32, false, true));
    assert_eq!(l.payload, LiteralPayload::Numeric { magnitude: BigUint::from(5u32) });
    // 9999999999999999999999999 needs 84 bits; a signed unsized literal gets one more.
    let l = lit("'sd9999999999999999999999999").unwrap();
    assert_eq!(l.width, 85);
    assert!(l.signed);
    let l = lit("'d9999999999999999999999999").unwrap();
    assert_eq!(l.width, 84);
    let l = lit("1_000").unwrap();
    assert_eq!((l.width, l.signed), (32, true));
    assert_eq!(l.payload, LiteralPayload::Numeric { magnitude: BigUint::from(1000u32) });
    let l = lit("4294967296").unwrap();
    assert_eq!(l.width, 34);
}

#[test]
fn literal_errors() {
    assert_eq!(lit("_1"), Err("number cannot start with underscore: _1".to_string()));
    assert_eq!(lit("16'sd_5"), Err("number cannot start with underscore: _5".to_string()));
    assert_eq!(lit("0_8'd1"), Err("invalid integer size: 0_8".to_string()));
    assert_eq!(
        lit("99999999999999999999999'd1"),
        Err("integer size is too large: 99999999999999999999999".to_string())
    );
    assert_eq!(lit("4'q1"), Err("unsupported integer base: q".to_string()));
    assert_eq!(lit("4'b102"), Err("invalid binary digit: 2".to_string()));
    assert_eq!(lit("4'o8"), Err("invalid octal digit: 8".to_string()));
    assert_eq!(lit("'hG"), Err("invalid hex digit: g".to_string()));
    assert_eq!(lit("5."), Err("invalid decimal digits: 5.".to_string()));
    assert_eq!(lit("4'd1x"), Err("invalid decimal digits: 1x".to_string()));
}

#[test]
fn real_text_loses_its_underscores() {
    assert_eq!(parse_real(&"1_000.5e1_0".to_string()), "1000.5e10");
}

#[test]
fn string_literal_bytes_first_character_highest() {
    let l = string_literal_spec(b"hi");
    assert_eq!(l.width, 16);
    assert_eq!(l.base, Base::Hex);
    assert!(!l.signed && !l.unsized_literal);
    assert_eq!(
        l.payload,
        LiteralPayload::Bits {
            low_bits: vec![ONE, ZERO, ZERO, ONE, ZERO, ONE, ONE, ZERO, ZERO, ZERO, ZERO, ONE, ZERO, ONE, ONE, ZERO],
            fill: ZERO,
        }
    );
    let e = string_literal_spec(b"");
    assert_eq!(e.width, 8);
    assert_eq!(e.payload, LiteralPayload::Bits { low_bits: vec![ZERO; 8], fill: ZERO });
}

fn int_tok(t: &str) -> Token {
    Token::IntegerLiteral(t.to_string())
}

#[test]
fn literal_boundaries() {
    assert_eq!(tokenize("1e5").unwrap(), vec![Token::RealLiteral("1e5".to_string())]);
    assert_eq!(
        tokenize("1_000.000_1").unwrap(),
        vec![Token::RealLiteral("1_000.000_1".to_string())]
    );
    assert_eq!(tokenize("12abc").unwrap(), vec![int_tok("12abc")]);
    assert_eq!(tokenize("3'b1 0").unwrap(), vec![int_tok("3'b1"), int_tok("0")]);
    assert_eq!(tokenize("'b 1").unwrap(), vec![int_tok("'b1")]);
    assert_eq!(tokenize("a$b").unwrap(), vec![Token::Identifier("a$b".to_string())]);
    assert_eq!(tokenize("#").unwrap(), vec![int_tok("#")]);
    assert_eq!(tokenize("1.x"), Err("unexpected character `.`".to_string()));
    assert_eq!(tokenize("9'h?z").unwrap(), vec![int_tok("9'h?z")]);
    assert_eq!(
        tokenize("1?2:3").unwrap(),
        vec![int_tok("1"), Token::Question, int_tok("2"), Token::Colon, int_tok("3")]
    );
    assert_eq!(
        tokenize("4 ' b1"),
        Err("missing base after apostrophe".to_string())
    );
    assert_eq!(tokenize("4'sb"), Err("missing digits in integer literal".to_string()));
    assert_eq!(tokenize("5e+"), Err("missing exponent digits in real literal".to_string()));
    assert_eq!(tokenize("1.5e"), Err("missing exponent digits in real literal".to_string()));
    assert_eq!(tokenize("  \n\t").unwrap(), vec![]);
}

#[test]
fn apostrophes_and_question_marks_inside_literals() {
    assert_eq!(tokenize("4'b1'b0").unwrap(), vec![int_tok("4'b1'b0")]);
    assert_eq!(
        tokenize("x'b1").unwrap(),
        vec![Token::Identifier("x".to_string()), int_tok("'b1")]
    );
    assert_eq!(tokenize("8'd 6?").unwrap(), vec![int_tok("8'd6?")]);
    assert_eq!(tokenize("3'b1 ?").unwrap(), vec![int_tok("3'b1"), Token::Question]);
    assert_eq!(tokenize("1 2").unwrap(), vec![int_tok("1"), int_tok("2")]);
    assert_eq!(tokenize("'sH f").unwrap(), vec![int_tok("'sHf")]);
}
